//! The persistence codec. The encoder prints a registry as one
//! canonical, indented JSON document: stable field order, sorted keys.
//! The decoder accepts any structurally valid document of that shape —
//! whitespace and field order do not matter, map keys may come in any
//! order (the last binding of a repeated key wins), and an absent
//! optional field decodes to no value — and rejects everything else as
//! a malformed document. An unknown field is rejected.

use vstd::prelude::*;

use crate::config::ainsert;
use crate::config::ainsert_exec;
use crate::config::sinsert;
use crate::config::sinsert_exec;
use crate::order::char_eq_by_u32;
use crate::order::str_eq;
use crate::order::lex_lt;
use crate::order::str_lt;

verus! {

/// A decimal digit.
pub open spec fn is_digit(c: char) -> bool {
    48 <= (c as u32) <= 57
}

/// The value of a decimal digit.
pub open spec fn dig_val(c: char) -> u8 {
    ((c as u32) - 48) as u8
}

/// The digit of a value below ten.
pub open spec fn digit_char(d: u8) -> char {
    if d == 0 {
        '0'
    } else if d == 1 {
        '1'
    } else if d == 2 {
        '2'
    } else if d == 3 {
        '3'
    } else if d == 4 {
        '4'
    } else if d == 5 {
        '5'
    } else if d == 6 {
        '6'
    } else if d == 7 {
        '7'
    } else if d == 8 {
        '8'
    } else {
        '9'
    }
}

/// The lowercase hex digit of a value below sixteen.
pub open spec fn hex_char(d: u8) -> char {
    if d < 10 {
        digit_char(d)
    } else if d == 10 {
        'a'
    } else if d == 11 {
        'b'
    } else if d == 12 {
        'c'
    } else if d == 13 {
        'd'
    } else if d == 14 {
        'e'
    } else {
        'f'
    }
}

/// A hex digit, either case.
pub open spec fn is_hex(c: char) -> bool {
    is_digit(c) || 97 <= (c as u32) <= 102 || 65 <= (c as u32) <= 70
}

/// The value of a hex digit.
pub open spec fn hex_val(c: char) -> u8 {
    if is_digit(c) {
        dig_val(c)
    } else if 97 <= (c as u32) {
        (((c as u32) - 97) + 10) as u8
    } else {
        (((c as u32) - 65) + 10) as u8
    }
}

/// Casting a scalar below 0xD800 to a character and back is the
/// identity.
pub proof fn char_cast_inverse(u: u32)
    requires
        u < 0xD800,
    ensures
        ((u as char) as u32) == u,
        (((u as char) as u32) as char) == (u as char),
{
    vstd::utf8::char_u32_cast((u as char), ((u as char) as u32));
}

/// The canonical escape of one character inside a string literal.
pub open spec fn esc_char(c: char) -> Seq<char> {
    if c == '"' {
        seq!['\\', '"']
    } else if c == '\\' {
        seq!['\\', '\\']
    } else if (c as u32) < 32 {
        seq!['\\', 'u', '0', '0', hex_char(((c as u32) / 16) as u8), hex_char(
            ((c as u32) % 16) as u8,
        )]
    } else {
        seq![c]
    }
}

/// The canonical escape of a whole string body.
pub open spec fn esc(s: Seq<char>) -> Seq<char>
    decreases s.len(),
{
    if s.len() == 0 {
        Seq::empty()
    } else {
        esc_char(s[0]) + esc(s.drop_first())
    }
}

/// The canonical quoted string literal.
pub open spec fn print_qstr(s: Seq<char>) -> Seq<char> {
    seq!['"'] + esc(s) + seq!['"']
}

/// The character named by a single-letter escape, if it is one.
pub open spec fn named_escape(e: char) -> Option<char> {
    if e == '"' {
        Option::Some('"')
    } else if e == '\\' {
        Option::Some('\\')
    } else if e == '/' {
        Option::Some('/')
    } else if e == 'n' {
        Option::Some('\n')
    } else if e == 't' {
        Option::Some('\t')
    } else if e == 'r' {
        Option::Some('\r')
    } else if e == 'b' {
        Option::Some('\u{8}')
    } else if e == 'f' {
        Option::Some('\u{c}')
    } else {
        Option::None
    }
}

/// Parses a string-literal body up to and including the closing quote:
/// the named escapes, `\uXXXX` for any non-surrogate scalar, and raw
/// characters other than controls, quotes and backslashes.
pub open spec fn parse_str_body(s: Seq<char>, i: int) -> Option<(Seq<char>, int)>
    decreases s.len() - i,
{
    if i < 0 || i >= s.len() {
        Option::None
    } else if s[i] == '"' {
        Option::Some((Seq::empty(), i + 1))
    } else if s[i] == '\\' {
        if i + 1 >= s.len() {
            Option::None
        } else if named_escape(s[i + 1]) is Some {
            match parse_str_body(s, i + 2) {
                Option::None => Option::None,
                Option::Some((rest, j)) => Option::Some(
                    (seq![named_escape(s[i + 1])->Some_0] + rest, j),
                ),
            }
        } else if s[i + 1] == 'u' {
            if i + 5 >= s.len() {
                Option::None
            } else if is_hex(s[i + 2]) && is_hex(s[i + 3]) && is_hex(s[i + 4]) && is_hex(
                s[i + 5],
            ) {
                let v = (hex_val(s[i + 2]) as int) * 4096 + (hex_val(s[i + 3]) as int) * 256 + (
                hex_val(s[i + 4]) as int) * 16 + (hex_val(s[i + 5]) as int);
                if 0xD800 <= v < 0xE000 {
                    Option::None
                } else {
                    match parse_str_body(s, i + 6) {
                        Option::None => Option::None,
                        Option::Some((rest, j)) => Option::Some(
                            (seq![(v as u32) as char] + rest, j),
                        ),
                    }
                }
            } else {
                Option::None
            }
        } else {
            Option::None
        }
    } else if (s[i] as u32) < 32 {
        Option::None
    } else {
        match parse_str_body(s, i + 1) {
            Option::None => Option::None,
            Option::Some((rest, j)) => Option::Some((seq![s[i]] + rest, j)),
        }
    }
}

/// Parses a canonical quoted string literal.
pub open spec fn parse_qstr(s: Seq<char>, i: int) -> Option<(Seq<char>, int)> {
    if 0 <= i < s.len() && s[i] == '"' {
        parse_str_body(s, i + 1)
    } else {
        Option::None
    }
}

/// A literal occurs at a position.
pub open spec fn parse_lit(s: Seq<char>, i: int, l: Seq<char>) -> Option<int> {
    if 0 <= i && i + l.len() <= s.len() && s.subrange(i, i + l.len()) == l {
        Option::Some(i + l.len())
    } else {
        Option::None
    }
}

/// The canonical decimal digits of a byte value.
pub open spec fn print_u8(n: u8) -> Seq<char> {
    if n < 10 {
        seq![digit_char(n)]
    } else if n < 100 {
        seq![digit_char(n / 10), digit_char(n % 10)]
    } else {
        seq![digit_char(n / 100), digit_char((n / 10) % 10), digit_char(n % 10)]
    }
}

/// Parses a canonical byte value: one to three digits, no leading
/// zero, at most 255, not followed by another digit.
pub open spec fn parse_u8(s: Seq<char>, i: int) -> Option<(u8, int)> {
    if i < 0 || i >= s.len() || !is_digit(s[i]) {
        Option::None
    } else if i + 1 < s.len() && is_digit(s[i + 1]) {
        if s[i] == '0' {
            Option::None
        } else if i + 2 < s.len() && is_digit(s[i + 2]) {
            if i + 3 < s.len() && is_digit(s[i + 3]) {
                Option::None
            } else if (dig_val(s[i]) as int) * 100 + (dig_val(s[i + 1]) as int) * 10 + (dig_val(
                s[i + 2],
            ) as int) <= 255 {
                Option::Some(
                    ((dig_val(s[i]) * 100 + dig_val(s[i + 1]) * 10 + dig_val(s[i + 2])) as u8, i
                        + 3),
                )
            } else {
                Option::None
            }
        } else {
            Option::Some(((dig_val(s[i]) * 10 + dig_val(s[i + 1])) as u8, i + 2))
        }
    } else {
        Option::Some((dig_val(s[i]), i + 1))
    }
}

/// The canonical text of an optional string: `null` or a literal.
pub open spec fn print_opt_str(o: Option<Seq<char>>) -> Seq<char> {
    match o {
        Option::None => "null"@,
        Option::Some(v) => print_qstr(v),
    }
}

/// Parses `null` or a string literal.
pub open spec fn parse_opt_str(s: Seq<char>, i: int) -> Option<(Option<Seq<char>>, int)> {
    if 0 <= i < s.len() && s[i] == '"' {
        match parse_qstr(s, i) {
            Option::None => Option::None,
            Option::Some((v, j)) => Option::Some((Option::Some(v), j)),
        }
    } else {
        match parse_lit(s, i, "null"@) {
            Option::None => Option::None,
            Option::Some(j) => Option::Some((Option::None, j)),
        }
    }
}

/// The canonical text of an optional byte value: `null` or digits.
pub open spec fn print_opt_u8(o: Option<u8>) -> Seq<char> {
    match o {
        Option::None => "null"@,
        Option::Some(n) => print_u8(n),
    }
}

/// Parses `null` or a canonical byte value.
pub open spec fn parse_opt_u8(s: Seq<char>, i: int) -> Option<(Option<u8>, int)> {
    if 0 <= i < s.len() && is_digit(s[i]) {
        match parse_u8(s, i) {
            Option::None => Option::None,
            Option::Some((n, j)) => Option::Some((Option::Some(n), j)),
        }
    } else {
        match parse_lit(s, i, "null"@) {
            Option::None => Option::None,
            Option::Some(j) => Option::Some((Option::None, j)),
        }
    }
}

/// The next index after a successful step, forced to advance so that
/// the recursion below is well founded; every step of this grammar
/// does advance, so the fallback arm is never taken on real input.
pub open spec fn bump(i: int, j: int) -> int {
    if j > i {
        j
    } else {
        i + 1
    }
}

/// The next position after a successful step, forced forward and kept
/// inside the text so that the grammar's recursion is well founded;
/// every real step lands inside the text, so the clamps never move it.
pub open spec fn step_to(s: Seq<char>, i: int, j: int) -> int {
    if i + 1 > s.len() {
        s.len() as int
    } else if j <= i {
        i + 1
    } else if j > s.len() {
        s.len() as int
    } else {
        j
    }
}

/// The canonical text of a project's tag array.
pub open spec fn print_titems(ts: Seq<Seq<char>>) -> Seq<char>
    decreases ts.len(),
{
    if ts.len() == 0 {
        Seq::empty()
    } else {
        "        "@ + print_qstr(ts[0]) + if ts.len() == 1 {
            Seq::<char>::empty()
        } else {
            ",\n"@ + print_titems(ts.drop_first())
        }
    }
}

pub open spec fn print_tags(ts: Seq<Seq<char>>) -> Seq<char> {
    if ts.len() == 0 {
        "[]"@
    } else {
        "[\n"@ + print_titems(ts) + "\n      ]"@
    }
}

/// The canonical text of a project record.
pub open spec fn print_project(p: crate::config::ProjectV) -> Seq<char> {
    "{\n      \"name\": "@ + print_qstr(p.name) + ",\n      \"git\": "@ + print_qstr(p.git)
        + ",\n      \"after_clone\": "@ + print_opt_str(p.after_clone)
        + ",\n      \"after_workon\": "@ + print_opt_str(p.after_workon) + ",\n      \"tags\": "@
        + print_tags(p.tags) + "\n    }"@
}

/// The canonical text of the project map's entries.
pub open spec fn print_pentries(ps: Seq<(Seq<char>, crate::config::ProjectV)>) -> Seq<char>
    decreases ps.len(),
{
    if ps.len() == 0 {
        Seq::empty()
    } else {
        "    "@ + print_qstr(ps[0].0) + ": "@ + print_project(ps[0].1) + if ps.len() == 1 {
            Seq::<char>::empty()
        } else {
            ",\n"@ + print_pentries(ps.drop_first())
        }
    }
}

pub open spec fn print_projects(ps: Seq<(Seq<char>, crate::config::ProjectV)>) -> Seq<char> {
    if ps.len() == 0 {
        "{}"@
    } else {
        "{\n"@ + print_pentries(ps) + "\n  }"@
    }
}

/// The canonical text of a tag record.
pub open spec fn print_tagv(t: crate::config::TagV) -> Seq<char> {
    "{\n        \"after_clone\": "@ + print_opt_str(t.after_clone)
        + ",\n        \"after_workon\": "@ + print_opt_str(t.after_workon)
        + ",\n        \"priority\": "@ + print_opt_u8(t.priority)
        + ",\n        \"workspace\": "@ + print_opt_str(t.workspace) + "\n      }"@
}

/// The canonical text of the tag catalog's entries.
pub open spec fn print_centries(cat: Seq<(Seq<char>, crate::config::TagV)>) -> Seq<char>
    decreases cat.len(),
{
    if cat.len() == 0 {
        Seq::empty()
    } else {
        "      "@ + print_qstr(cat[0].0) + ": "@ + print_tagv(cat[0].1) + if cat.len() == 1 {
            Seq::<char>::empty()
        } else {
            ",\n"@ + print_centries(cat.drop_first())
        }
    }
}

pub open spec fn print_catalog(cat: Seq<(Seq<char>, crate::config::TagV)>) -> Seq<char> {
    if cat.len() == 0 {
        "{}"@
    } else {
        "{\n"@ + print_centries(cat) + "\n    }"@
    }
}

pub open spec fn print_opt_catalog(o: Option<Seq<(Seq<char>, crate::config::TagV)>>) -> Seq<
    char,
> {
    match o {
        Option::None => "null"@,
        Option::Some(cat) => print_catalog(cat),
    }
}

/// The canonical text of the settings record.
pub open spec fn print_settings(st: crate::config::SettingsV) -> Seq<char> {
    "{\n    \"workspace\": "@ + print_qstr(st.workspace) + ",\n    \"tags\": "@
        + print_opt_catalog(st.tags) + "\n  }"@
}

/// The canonical text of a whole registry document.
pub open spec fn print_config(c: crate::config::ConfigV) -> Seq<char> {
    "{\n  \"projects\": "@ + print_projects(c.projects) + ",\n  \"settings\": "@ + print_settings(
        c.settings,
    ) + "\n}"@
}

/// Relies on `core::iter::Iterator::collect`: collecting characters
/// yields the string of exactly those characters in order.
#[verifier::external_body]
fn chars_to_string(v: &Vec<char>) -> (r: String)
    ensures
        r@ == v@,
{
    v.iter().collect()
}

/// Appends a literal fragment.
fn append_lit(out: &mut Vec<char>, lit: &str)
    ensures
        final(out)@ == old(out)@ + lit@,
{
    let n = lit.unicode_len();
    let mut j: usize = 0;
    while j < n
        invariant
            j <= n,
            n == lit@.len(),
            out@ == old(out)@ + lit@.take(j as int),
        decreases n - j,
    {
        out.push(lit.get_char(j));
        proof {
            assert(lit@.take(j + 1) =~= lit@.take(j as int).push(lit@[j as int]));
            assert(out@ =~= old(out)@ + lit@.take(j + 1));
        }
        j = j + 1;
    }
    proof {
        assert(lit@.take(n as int) =~= lit@);
    }
}

/// The digit of a value below ten, executable.
fn digit_char_exec(d: u8) -> (c: char)
    requires
        d < 10,
    ensures
        c == digit_char(d),
{
    if d == 0 {
        '0'
    } else if d == 1 {
        '1'
    } else if d == 2 {
        '2'
    } else if d == 3 {
        '3'
    } else if d == 4 {
        '4'
    } else if d == 5 {
        '5'
    } else if d == 6 {
        '6'
    } else if d == 7 {
        '7'
    } else if d == 8 {
        '8'
    } else {
        '9'
    }
}

/// The lowercase hex digit of a value below sixteen, executable.
fn hex_char_exec(d: u8) -> (c: char)
    requires
        d < 16,
    ensures
        c == hex_char(d),
{
    if d < 10 {
        digit_char_exec(d)
    } else if d == 10 {
        'a'
    } else if d == 11 {
        'b'
    } else if d == 12 {
        'c'
    } else if d == 13 {
        'd'
    } else if d == 14 {
        'e'
    } else {
        'f'
    }
}

/// Escaping distributes over extending the body by one character.
pub proof fn lemma_esc_push(s: Seq<char>, c: char)
    ensures
        esc(s.push(c)) == esc(s) + esc_char(c),
    decreases s.len(),
{
    if s.len() == 0 {
        assert(s.push(c)[0] == c);
        assert(s.push(c).drop_first() =~= s);
        assert(esc(s) =~= Seq::<char>::empty());
        assert(esc(s.push(c)) =~= esc(s) + esc_char(c));
    } else {
        assert(s.push(c)[0] == s[0]);
        assert(s.push(c).drop_first() =~= s.drop_first().push(c));
        lemma_esc_push(s.drop_first(), c);
        assert(esc(s.push(c)) =~= esc(s) + esc_char(c));
    }
}

/// Appends a quoted string literal.
fn append_qstr(out: &mut Vec<char>, s: &str)
    ensures
        final(out)@ == old(out)@ + print_qstr(s@),
{
    out.push('"');
    let n = s.unicode_len();
    let mut j: usize = 0;
    proof {
        assert(esc(s@.take(0)) =~= Seq::<char>::empty());
        assert(out@ =~= old(out)@ + seq!['"'] + esc(s@.take(0)));
    }
    while j < n
        invariant
            j <= n,
            n == s@.len(),
            out@ == old(out)@ + seq!['"'] + esc(s@.take(j as int)),
        decreases n - j,
    {
        let c = s.get_char(j);
        let u = c as u32;
        if c == '"' {
            out.push('\\');
            out.push('"');
        } else if c == '\\' {
            out.push('\\');
            out.push('\\');
        } else if u < 32 {
            out.push('\\');
            out.push('u');
            out.push('0');
            out.push('0');
            out.push(hex_char_exec((u / 16) as u8));
            out.push(hex_char_exec((u % 16) as u8));
        } else {
            out.push(c);
        }
        proof {
            assert(out@ =~= old(out)@ + seq!['"'] + (esc(s@.take(j as int)) + esc_char(c)));
            assert(s@.take(j + 1) =~= s@.take(j as int).push(s@[j as int]));
            lemma_esc_push(s@.take(j as int), c);
            assert(out@ =~= old(out)@ + seq!['"'] + esc(s@.take(j + 1)));
        }
        j = j + 1;
    }
    out.push('"');
    proof {
        assert(s@.take(n as int) =~= s@);
        assert(out@ =~= old(out)@ + print_qstr(s@));
    }
}

/// Appends the canonical digits of a byte value.
fn append_u8(out: &mut Vec<char>, n: u8)
    ensures
        final(out)@ == old(out)@ + print_u8(n),
{
    if n < 10 {
        out.push(digit_char_exec(n));
        assert(out@ =~= old(out)@ + print_u8(n));
    } else if n < 100 {
        out.push(digit_char_exec(n / 10));
        out.push(digit_char_exec(n % 10));
        assert(out@ =~= old(out)@ + print_u8(n));
    } else {
        out.push(digit_char_exec(n / 100));
        out.push(digit_char_exec((n / 10) % 10));
        out.push(digit_char_exec(n % 10));
        assert(out@ =~= old(out)@ + print_u8(n));
    }
}

/// Appends `null` or a quoted string literal.
fn append_opt_str(out: &mut Vec<char>, o: &Option<String>)
    ensures
        final(out)@ == old(out)@ + print_opt_str(crate::config::opt_view(*o)),
{
    match o {
        Option::None => append_lit(out, "null"),
        Option::Some(s) => append_qstr(out, s.as_str()),
    }
}

/// Appends `null` or the canonical digits of a byte value.
fn append_opt_u8(out: &mut Vec<char>, o: &Option<u8>)
    ensures
        final(out)@ == old(out)@ + print_opt_u8(*o),
{
    match o {
        Option::None => append_lit(out, "null"),
        Option::Some(n) => append_u8(out, *n),
    }
}

/// Appends the items of a tag array from index `k` on.
fn append_titems(out: &mut Vec<char>, ts: &Vec<String>, k: usize)
    requires
        k < ts.len(),
    ensures
        final(out)@ == old(out)@ + print_titems(crate::config::names_view(ts@).skip(k as int)),
    decreases ts.len() - k,
{
    let ghost rest = crate::config::names_view(ts@).skip(k as int);
    proof {
        assert(rest[0] == ts@[k as int]@);
    }
    append_lit(out, "        ");
    append_qstr(out, ts[k].as_str());
    if k + 1 < ts.len() {
        append_lit(out, ",\n");
        append_titems(out, ts, k + 1);
        proof {
            assert(rest.drop_first() =~= crate::config::names_view(ts@).skip(k + 1));
            assert(out@ =~= old(out)@ + print_titems(rest));
        }
    } else {
        proof {
            assert(rest.len() == 1);
            assert(out@ =~= old(out)@ + print_titems(rest));
        }
    }
}

/// Appends a whole tag array.
fn append_tags(out: &mut Vec<char>, ts: &Vec<String>)
    ensures
        final(out)@ == old(out)@ + print_tags(crate::config::names_view(ts@)),
{
    if ts.len() == 0 {
        append_lit(out, "[]");
    } else {
        append_lit(out, "[\n");
        append_titems(out, ts, 0);
        append_lit(out, "\n      ]");
        proof {
            assert(crate::config::names_view(ts@).skip(0) =~= crate::config::names_view(ts@));
            assert(out@ =~= old(out)@ + print_tags(crate::config::names_view(ts@)));
        }
    }
}

/// Appends a project record.
fn append_project(out: &mut Vec<char>, p: &crate::config::Project)
    ensures
        final(out)@ == old(out)@ + print_project(p@),
{
    append_lit(out, "{\n      \"name\": ");
    append_qstr(out, p.name.as_str());
    append_lit(out, ",\n      \"git\": ");
    append_qstr(out, p.git.as_str());
    append_lit(out, ",\n      \"after_clone\": ");
    append_opt_str(out, &p.after_clone);
    append_lit(out, ",\n      \"after_workon\": ");
    append_opt_str(out, &p.after_workon);
    append_lit(out, ",\n      \"tags\": ");
    append_tags(out, &p.tags);
    append_lit(out, "\n    }");
    proof {
        assert(out@ =~= old(out)@ + print_project(p@));
    }
}

/// Appends the entries of the project map from index `k` on.
#[verifier::rlimit(50)]
fn append_pentries(out: &mut Vec<char>, ps: &Vec<(String, crate::config::Project)>, k: usize)
    requires
        k < ps.len(),
    ensures
        final(out)@ == old(out)@ + print_pentries(crate::config::aview(ps@).skip(k as int)),
    decreases ps.len() - k,
{
    let ghost rest = crate::config::aview(ps@).skip(k as int);
    proof {
        assert(rest[0] == (ps@[k as int].0@, ps@[k as int].1@));
    }
    append_lit(out, "    ");
    append_qstr(out, ps[k].0.as_str());
    append_lit(out, ": ");
    append_project(out, &ps[k].1);
    if k + 1 < ps.len() {
        append_lit(out, ",\n");
        append_pentries(out, ps, k + 1);
        proof {
            assert(rest.drop_first() =~= crate::config::aview(ps@).skip(k + 1));
            assert(out@ =~= old(out)@ + print_pentries(rest));
        }
    } else {
        proof {
            assert(rest.len() == 1);
            assert(out@ =~= old(out)@ + print_pentries(rest));
        }
    }
}

/// Appends the whole project map.
fn append_projects(out: &mut Vec<char>, ps: &Vec<(String, crate::config::Project)>)
    ensures
        final(out)@ == old(out)@ + print_projects(crate::config::aview(ps@)),
{
    if ps.len() == 0 {
        append_lit(out, "{}");
        proof {
            assert(crate::config::aview(ps@).len() == 0);
        }
    } else {
        append_lit(out, "{\n");
        append_pentries(out, ps, 0);
        append_lit(out, "\n  }");
        proof {
            assert(crate::config::aview(ps@).skip(0) =~= crate::config::aview(ps@));
            assert(out@ =~= old(out)@ + print_projects(crate::config::aview(ps@)));
        }
    }
}

/// Appends a tag record.
fn append_tagv(out: &mut Vec<char>, t: &crate::config::Tag)
    ensures
        final(out)@ == old(out)@ + print_tagv(t@),
{
    append_lit(out, "{\n        \"after_clone\": ");
    append_opt_str(out, &t.after_clone);
    append_lit(out, ",\n        \"after_workon\": ");
    append_opt_str(out, &t.after_workon);
    append_lit(out, ",\n        \"priority\": ");
    append_opt_u8(out, &t.priority);
    append_lit(out, ",\n        \"workspace\": ");
    append_opt_str(out, &t.workspace);
    append_lit(out, "\n      }");
    proof {
        assert(out@ =~= old(out)@ + print_tagv(t@));
    }
}

/// Appends the entries of the tag catalog from index `k` on.
#[verifier::rlimit(50)]
fn append_centries(out: &mut Vec<char>, cat: &Vec<(String, crate::config::Tag)>, k: usize)
    requires
        k < cat.len(),
    ensures
        final(out)@ == old(out)@ + print_centries(crate::config::aview(cat@).skip(k as int)),
    decreases cat.len() - k,
{
    let ghost rest = crate::config::aview(cat@).skip(k as int);
    proof {
        assert(rest[0] == (cat@[k as int].0@, cat@[k as int].1@));
    }
    append_lit(out, "      ");
    append_qstr(out, cat[k].0.as_str());
    append_lit(out, ": ");
    append_tagv(out, &cat[k].1);
    if k + 1 < cat.len() {
        append_lit(out, ",\n");
        append_centries(out, cat, k + 1);
        proof {
            assert(rest.drop_first() =~= crate::config::aview(cat@).skip(k + 1));
            assert(out@ =~= old(out)@ + print_centries(rest));
        }
    } else {
        proof {
            assert(rest.len() == 1);
            assert(out@ =~= old(out)@ + print_centries(rest));
        }
    }
}

/// Appends the optional tag catalog.
fn append_opt_catalog(out: &mut Vec<char>, cat: &Option<Vec<(String, crate::config::Tag)>>)
    ensures
        final(out)@ == old(out)@ + print_opt_catalog(
            match *cat {
                Option::None => Option::None,
                Option::Some(ref c) => Option::Some(crate::config::aview(c@)),
            },
        ),
{
    match cat {
        Option::None => append_lit(out, "null"),
        Option::Some(c) => {
            if c.len() == 0 {
                append_lit(out, "{}");
                proof {
                    assert(crate::config::aview(c@).len() == 0);
                }
            } else {
                append_lit(out, "{\n");
                append_centries(out, c, 0);
                append_lit(out, "\n    }");
                proof {
                    assert(crate::config::aview(c@).skip(0) =~= crate::config::aview(c@));
                    assert(out@ =~= old(out)@ + print_catalog(crate::config::aview(c@)));
                }
            }
        },
    }
}

/// Appends the settings record.
fn append_settings(out: &mut Vec<char>, st: &crate::config::Settings)
    ensures
        final(out)@ == old(out)@ + print_settings(st@),
{
    append_lit(out, "{\n    \"workspace\": ");
    append_qstr(out, st.workspace.as_str());
    append_lit(out, ",\n    \"tags\": ");
    append_opt_catalog(out, &st.tags);
    append_lit(out, "\n  }");
    proof {
        assert(out@ =~= old(out)@ + print_settings(st@));
    }
}

/// Serializes a registry as its canonical document: stable field
/// order, two-space indentation, keys in ascending order as stored.
pub fn encode(config: &crate::config::Config) -> (r: String)
    ensures
        r@ == print_config(config@),
{
    let mut out: Vec<char> = Vec::new();
    append_lit(&mut out, "{\n  \"projects\": ");
    append_projects(&mut out, &config.projects);
    append_lit(&mut out, ",\n  \"settings\": ");
    append_settings(&mut out, &config.settings);
    append_lit(&mut out, "\n}");
    proof {
        assert(out@ =~= print_config(config@));
    }
    chars_to_string(&out)
}

/// Decides whether a literal occurs at a position.
fn expect_lit(s: &Vec<char>, i: usize, lit: &str) -> (r: Option<usize>)
    ensures
        match r {
            Option::Some(j) => parse_lit(s@, i as int, lit@) == Option::Some(j as int) && i <= j
                <= s.len(),
            Option::None => parse_lit(s@, i as int, lit@) is None,
        },
{
    let n = lit.unicode_len();
    if i > s.len() || n > s.len() - i {
        return Option::None;
    }
    let mut j: usize = 0;
    while j < n
        invariant
            j <= n,
            n == lit@.len(),
            i + n <= s.len(),
            forall|q: int| 0 <= q < j ==> s@[i + q] == lit@[q],
        decreases n - j,
    {
        let cs = s[i + j];
        let cl = lit.get_char(j);
        if cs as u32 != cl as u32 {
            proof {
                assert(s@.subrange(i as int, i + lit@.len()) != lit@) by {
                    assert(s@.subrange(i as int, i + lit@.len())[j as int] != lit@[j as int]);
                }
            }
            return Option::None;
        }
        proof {
            char_eq_by_u32(cs, cl);
        }
        j = j + 1;
    }
    proof {
        assert(s@.subrange(i as int, i + lit@.len()) =~= lit@);
    }
    Option::Some(i + n)
}

/// Parses a string-literal body, executable.
fn parse_body_exec(s: &Vec<char>, i: usize) -> (r: Option<(Vec<char>, usize)>)
    ensures
        match r {
            Option::Some((v, j)) => parse_str_body(s@, i as int) == Option::Some((v@, j as int))
                && i < j <= s.len(),
            Option::None => parse_str_body(s@, i as int) is None,
        },
    decreases s.len() - i,
{
    if i >= s.len() {
        return Option::None;
    }
    let c = s[i];
    if c == '"' {
        let v: Vec<char> = Vec::new();
        assert(v@ =~= Seq::<char>::empty());
        return Option::Some((v, i + 1));
    }
    if c == '\\' {
        if s.len() - i <= 1 {
            return Option::None;
        }
        let e = s[i + 1];
        let named: Option<char> = if e == '"' {
            Option::Some('"')
        } else if e == '\\' {
            Option::Some('\\')
        } else if e == '/' {
            Option::Some('/')
        } else if e == 'n' {
            Option::Some('\n')
        } else if e == 't' {
            Option::Some('\t')
        } else if e == 'r' {
            Option::Some('\r')
        } else if e == 'b' {
            Option::Some('\u{8}')
        } else if e == 'f' {
            Option::Some('\u{c}')
        } else {
            Option::None
        };
        assert(named == named_escape(s@[i + 1]));
        if let Option::Some(d) = named {
            match parse_body_exec(s, i + 2) {
                Option::None => Option::None,
                Option::Some((rest, j)) => {
                    let ghost tail = rest@;
                    let mut rest = rest;
                    rest.insert(0, d);
                    proof {
                        assert(rest@ =~= seq![named_escape(s@[i + 1])->Some_0] + tail);
                    }
                    Option::Some((rest, j))
                },
            }
        } else if e == 'u' {
            if s.len() - i <= 5 {
                return Option::None;
            }
            let v1 = match hex_val_exec(s[i + 2]) {
                Option::Some(v) => v,
                Option::None => {
                    return Option::None;
                },
            };
            let v2 = match hex_val_exec(s[i + 3]) {
                Option::Some(v) => v,
                Option::None => {
                    return Option::None;
                },
            };
            let v3 = match hex_val_exec(s[i + 4]) {
                Option::Some(v) => v,
                Option::None => {
                    return Option::None;
                },
            };
            let v4 = match hex_val_exec(s[i + 5]) {
                Option::Some(v) => v,
                Option::None => {
                    return Option::None;
                },
            };
            let val: u32 = (v1 as u32) * 4096 + (v2 as u32) * 256 + (v3 as u32) * 16 + (
            v4 as u32);
            if 0xD800 <= val && val < 0xE000 {
                return Option::None;
            }
            let decoded: char = char_from_scalar(val);
            match parse_body_exec(s, i + 6) {
                Option::None => Option::None,
                Option::Some((rest, j)) => {
                    let ghost tail = rest@;
                    let mut rest = rest;
                    rest.insert(0, decoded);
                    proof {
                        assert(rest@ =~= seq![decoded] + tail);
                    }
                    Option::Some((rest, j))
                },
            }
        } else {
            Option::None
        }
    } else if (c as u32) < 32 {
        Option::None
    } else {
        match parse_body_exec(s, i + 1) {
            Option::None => Option::None,
            Option::Some((rest, j)) => {
                let ghost tail = rest@;
                let mut rest = rest;
                rest.insert(0, c);
                proof {
                    assert(rest@ =~= seq![s@[i as int]] + tail);
                }
                Option::Some((rest, j))
            },
        }
    }
}

/// The value of a lowercase hex digit, executable.
fn hex_val_exec(c: char) -> (r: Option<u8>)
    ensures
        match r {
            Option::Some(v) => is_hex(c) && v == hex_val(c) && v < 16,
            Option::None => !is_hex(c),
        },
{
    let u = c as u32;
    if 48 <= u && u <= 57 {
        Option::Some((u - 48) as u8)
    } else if 97 <= u && u <= 102 {
        Option::Some((u - 97 + 10) as u8)
    } else if 65 <= u && u <= 70 {
        Option::Some((u - 65 + 10) as u8)
    } else {
        Option::None
    }
}

/// Relies on `char::from_u32`: a scalar value outside the surrogate
/// range and below 0x110000 is a valid character with exactly that
/// scalar value.
#[verifier::external_body]
fn char_from_scalar(u: u32) -> (c: char)
    requires
        u < 0xD800 || (0xE000 <= u && u < 0x110000),
    ensures
        c == (u as char),
{
    char::from_u32(u).unwrap()
}

/// Parses a quoted string literal, executable.
fn parse_qstr_exec(s: &Vec<char>, i: usize) -> (r: Option<(String, usize)>)
    ensures
        match r {
            Option::Some((v, j)) => parse_qstr(s@, i as int) == Option::Some((v@, j as int)) && i
                < j <= s.len(),
            Option::None => parse_qstr(s@, i as int) is None,
        },
{
    if i < s.len() && s[i] == '"' {
        match parse_body_exec(s, i + 1) {
            Option::None => Option::None,
            Option::Some((v, j)) => Option::Some((chars_to_string(&v), j)),
        }
    } else {
        Option::None
    }
}

/// Parses a canonical byte value, executable.
fn parse_u8_exec(s: &Vec<char>, i: usize) -> (r: Option<(u8, usize)>)
    ensures
        match r {
            Option::Some((n, j)) => parse_u8(s@, i as int) == Option::Some((n, j as int)) && i < j
                <= s.len(),
            Option::None => parse_u8(s@, i as int) is None,
        },
{
    if i >= s.len() {
        return Option::None;
    }
    let d0 = match dig_val_exec(s[i]) {
        Option::Some(v) => v,
        Option::None => {
            return Option::None;
        },
    };
    if s.len() - i >= 2 && dig_val_exec(s[i + 1]).is_some() {
        if d0 == 0 {
            proof {
                char_eq_by_u32(s@[i as int], '0');
            }
            return Option::None;
        }
        assert(s@[i as int] != '0');
        let d1 = dig_val_exec(s[i + 1]).unwrap();
        if s.len() - i >= 3 && dig_val_exec(s[i + 2]).is_some() {
            if s.len() - i >= 4 && dig_val_exec(s[i + 3]).is_some() {
                return Option::None;
            }
            let d2 = dig_val_exec(s[i + 2]).unwrap();
            let v: u16 = (d0 as u16) * 100 + (d1 as u16) * 10 + (d2 as u16);
            if v <= 255 {
                Option::Some((v as u8, i + 3))
            } else {
                Option::None
            }
        } else {
            Option::Some((d0 * 10 + d1, i + 2))
        }
    } else {
        Option::Some((d0, i + 1))
    }
}

/// The value of a decimal digit, executable.
fn dig_val_exec(c: char) -> (r: Option<u8>)
    ensures
        match r {
            Option::Some(v) => is_digit(c) && v == dig_val(c) && v < 10,
            Option::None => !is_digit(c),
        },
{
    let u = c as u32;
    if 48 <= u && u <= 57 {
        Option::Some((u - 48) as u8)
    } else {
        Option::None
    }
}

/// Parses `null` or a string literal, executable.
fn parse_opt_str_exec(s: &Vec<char>, i: usize) -> (r: Option<(Option<String>, usize)>)
    ensures
        match r {
            Option::Some((v, j)) => parse_opt_str(s@, i as int) == Option::Some(
                (crate::config::opt_view(v), j as int),
            ) && i < j <= s.len(),
            Option::None => parse_opt_str(s@, i as int) is None,
        },
{
    if i < s.len() && s[i] == '"' {
        match parse_qstr_exec(s, i) {
            Option::None => Option::None,
            Option::Some((v, j)) => Option::Some((Option::Some(v), j)),
        }
    } else {
        match expect_lit(s, i, "null") {
            Option::None => Option::None,
            Option::Some(j) => {
                proof {
                    reveal_strlit("null");
                }
                Option::Some((Option::None, j))
            },
        }
    }
}

/// Parses `null` or a byte value, executable.
fn parse_opt_u8_exec(s: &Vec<char>, i: usize) -> (r: Option<(Option<u8>, usize)>)
    ensures
        match r {
            Option::Some((v, j)) => parse_opt_u8(s@, i as int) == Option::Some((v, j as int)) && i
                < j <= s.len(),
            Option::None => parse_opt_u8(s@, i as int) is None,
        },
{
    let digit = if i < s.len() {
        dig_val_exec(s[i]).is_some()
    } else {
        false
    };
    if digit {
        match parse_u8_exec(s, i) {
            Option::None => Option::None,
            Option::Some((n, j)) => Option::Some((Option::Some(n), j)),
        }
    } else {
        match expect_lit(s, i, "null") {
            Option::None => Option::None,
            Option::Some(j) => {
                proof {
                    reveal_strlit("null");
                }
                Option::Some((Option::None, j))
            },
        }
    }
}

} // verus!

verus! {

/// A string-literal body parse consumes exactly one canonical escape
/// sequence and yields back the characters it encodes.
pub proof fn lemma_body_round(s: Seq<char>, i: int, v: Seq<char>)
    requires
        0 <= i,
        i + esc(v).len() + 1 <= s.len(),
        s.subrange(i, i + esc(v).len() + 1) == esc(v) + seq!['"'],
    ensures
        parse_str_body(s, i) == Option::Some((v, i + esc(v).len() + 1)),
    decreases v.len(),
{
    if v.len() == 0 {
        assert(esc(v).len() == 0);
        assert(s[i] == (esc(v) + seq!['"'])[0]);
        assert(s[i] == '"');
        assert(parse_str_body(s, i) == Option::Some((Seq::<char>::empty(), i + 1)));
        assert(Seq::<char>::empty() =~= v);
    } else {
        let c = v[0];
        let v2 = v.drop_first();
        let e = esc_char(c);
        let d = e.len();
        assert(esc(v) == e + esc(v2));
        let whole = esc(v) + seq!['"'];
        assert(forall|q: int| 0 <= q < whole.len() ==> s[i + q] == whole[q]) by {
            assert(forall|q: int|
                0 <= q < whole.len() ==> s.subrange(i, i + esc(v).len() + 1)[q] == whole[q]);
        }
        assert(forall|q: int| 0 <= q < d ==> whole[q] == e[q]);
        // the tail premise for the recursive call
        assert(s.subrange(i + d, i + d + esc(v2).len() + 1) =~= esc(v2) + seq!['"']) by {
            assert(forall|q: int|
                0 <= q < esc(v2).len() + 1 ==> whole[d + q] == (esc(v2) + seq!['"'])[q]);
        }
        lemma_body_round(s, i + d, v2);
        if c == '"' {
            assert(e == seq!['\\', '"']);
            assert(s[i] == '\\' && s[i + 1] == '"') by {
                assert(s[i + 0] == whole[0]);
                assert(s[i + 1] == whole[1]);
            }
            assert(named_escape(s[i + 1]) == Option::Some('"'));
            assert(seq![named_escape(s[i + 1])->Some_0] + v2 =~= v);
        } else if c == '\\' {
            assert(e == seq!['\\', '\\']);
            assert(s[i] == '\\' && s[i + 1] == '\\') by {
                assert(s[i + 0] == whole[0]);
                assert(s[i + 1] == whole[1]);
            }
            assert(named_escape(s[i + 1]) == Option::Some('\\'));
            assert(seq![named_escape(s[i + 1])->Some_0] + v2 =~= v);
        } else if (c as u32) < 32 {
            let u = c as u32;
            let hi = (u / 16) as u8;
            let lo = (u % 16) as u8;
            assert(e == seq!['\\', 'u', '0', '0', hex_char(hi), hex_char(lo)]);
            assert(s[i] == '\\' && s[i + 1] == 'u' && s[i + 2] == '0' && s[i + 3] == '0') by {
                assert(s[i + 0] == whole[0]);
                assert(s[i + 1] == whole[1]);
                assert(s[i + 2] == whole[2]);
                assert(s[i + 3] == whole[3]);
            }
            assert(s[i + 4] == hex_char(hi) && s[i + 5] == hex_char(lo)) by {
                assert(s[i + 4] == whole[4]);
                assert(s[i + 5] == whole[5]);
            }
            assert(named_escape(s[i + 1]) is None);
            assert(hi < 2 && lo < 16);
            assert(is_hex(s[i + 2]) && hex_val(s[i + 2]) == 0);
            assert(is_hex(s[i + 3]) && hex_val(s[i + 3]) == 0);
            assert(is_hex(hex_char(hi)) && hex_val(hex_char(hi)) == hi);
            assert(is_hex(hex_char(lo)) && hex_val(hex_char(lo)) == lo);
            let val = (hex_val(s[i + 2]) as int) * 4096 + (hex_val(s[i + 3]) as int) * 256 + (
            hex_val(s[i + 4]) as int) * 16 + (hex_val(s[i + 5]) as int);
            assert(val == u) by {
                assert(u == (u / 16) * 16 + u % 16);
            }
            assert(!(0xD800 <= val < 0xE000));
            assert(((val as u32) as char) == c) by {
                assert((val as u32) == (c as u32));
                vstd::utf8::char_u32_cast(c, c as u32);
            }
            assert(seq![(val as u32) as char] + v2 =~= v);
        } else {
            assert(e == seq![c]);
            assert(whole[0] == c);
            assert(s[i] == c) by {
                assert(s[i + 0] == whole[0]);
            }
            assert(s[i] != '"' && s[i] != '\\' && !((s[i] as u32) < 32));
            assert(seq![s[i]] + v2 =~= v);
        }
    }
}

/// A quoted-string parse consumes exactly the canonical literal of `v`
/// and yields `v` back.
pub proof fn lemma_qstr_round(s: Seq<char>, i: int, v: Seq<char>)
    requires
        0 <= i,
        i + print_qstr(v).len() <= s.len(),
        s.subrange(i, i + print_qstr(v).len()) == print_qstr(v),
    ensures
        parse_qstr(s, i) == Option::Some((v, i + print_qstr(v).len())),
{
    assert(print_qstr(v).len() == esc(v).len() + 2);
    assert(forall|q: int|
        0 <= q < print_qstr(v).len() ==> s[i + q] == print_qstr(v)[q]) by {
        assert(forall|q: int|
            0 <= q < print_qstr(v).len() ==> s.subrange(i, i + print_qstr(v).len())[q]
                == print_qstr(v)[q]);
    }
    assert(print_qstr(v)[0] == '"');
    assert(s[i] == '"') by {
        assert(s[i + 0] == print_qstr(v)[0]);
    }
    assert(s.subrange(i + 1, i + 1 + esc(v).len() + 1) =~= esc(v) + seq!['"']) by {
        assert(forall|q: int|
            0 <= q < esc(v).len() + 1 ==> print_qstr(v)[1 + q] == (esc(v) + seq!['"'])[q]);
    }
    lemma_body_round(s, i + 1, v);
}

/// A digit is never a quote.
pub proof fn lemma_digit_vals(n: u8)
    requires
        n < 10,
    ensures
        is_digit(digit_char(n)),
        dig_val(digit_char(n)) == n,
        n != 0 ==> digit_char(n) != '0',
{
}

/// A byte-value parse consumes exactly the canonical digits of `n`,
/// provided the text does not continue with another digit.
pub proof fn lemma_u8_round(s: Seq<char>, i: int, n: u8)
    requires
        0 <= i,
        i + print_u8(n).len() <= s.len(),
        s.subrange(i, i + print_u8(n).len()) == print_u8(n),
        i + print_u8(n).len() == s.len() || !is_digit(s[i + print_u8(n).len()]),
    ensures
        parse_u8(s, i) == Option::Some((n, i + print_u8(n).len())),
{
    let l = print_u8(n).len();
    assert(forall|q: int| 0 <= q < l ==> s[i + q] == print_u8(n)[q]) by {
        assert(forall|q: int| 0 <= q < l ==> s.subrange(i, i + l)[q] == print_u8(n)[q]);
    }
    if n < 10 {
        lemma_digit_vals(n);
        assert(s[i] == digit_char(n)) by {
            assert(s[i + 0] == print_u8(n)[0]);
        }
    } else if n < 100 {
        lemma_digit_vals(n / 10);
        lemma_digit_vals(n % 10);
        assert(s[i] == digit_char(n / 10) && s[i + 1] == digit_char(n % 10)) by {
            assert(s[i + 0] == print_u8(n)[0]);
            assert(s[i + 1] == print_u8(n)[1]);
        }
        assert(dig_val(s[i]) * 10 + dig_val(s[i + 1]) == n) by {
            assert((n / 10) * 10 + n % 10 == n);
        }
    } else {
        lemma_digit_vals(n / 100);
        lemma_digit_vals((n / 10) % 10);
        lemma_digit_vals(n % 10);
        assert(s[i] == digit_char(n / 100) && s[i + 1] == digit_char((n / 10) % 10) && s[i + 2]
            == digit_char(n % 10)) by {
            assert(s[i + 0] == print_u8(n)[0]);
            assert(s[i + 1] == print_u8(n)[1]);
            assert(s[i + 2] == print_u8(n)[2]);
        }
        assert((dig_val(s[i]) as int) * 100 + (dig_val(s[i + 1]) as int) * 10 + (dig_val(
            s[i + 2],
        ) as int) == n) by {
            assert((n / 100) * 100 + ((n / 10) % 10) * 10 + n % 10 == n) by (nonlinear_arith);
        }
    }
}

/// An optional-string parse consumes exactly `null` or the canonical
/// literal.
pub proof fn lemma_opt_str_round(s: Seq<char>, i: int, o: Option<Seq<char>>)
    requires
        0 <= i,
        i + print_opt_str(o).len() <= s.len(),
        s.subrange(i, i + print_opt_str(o).len()) == print_opt_str(o),
    ensures
        parse_opt_str(s, i) == Option::Some((o, i + print_opt_str(o).len())),
{
    reveal_strlit("null");
    match o {
        Option::None => {
            assert(s[i] == "null"@[0]) by {
                assert(s[i + 0] == s.subrange(i, i + 4)[0]);
            }
            assert(s[i] != '"');
            assert(parse_lit(s, i, "null"@) == Option::Some(i + 4));
        },
        Option::Some(v) => {
            assert(s[i] == print_qstr(v)[0]) by {
                assert(s[i + 0] == s.subrange(i, i + print_qstr(v).len())[0]);
            }
            assert(s[i] == '"');
            lemma_qstr_round(s, i, v);
        },
    }
}

/// An optional-byte parse consumes exactly `null` or the canonical
/// digits, provided the text does not continue with another digit.
pub proof fn lemma_opt_u8_round(s: Seq<char>, i: int, o: Option<u8>)
    requires
        0 <= i,
        i + print_opt_u8(o).len() <= s.len(),
        s.subrange(i, i + print_opt_u8(o).len()) == print_opt_u8(o),
        i + print_opt_u8(o).len() == s.len() || !is_digit(s[i + print_opt_u8(o).len()]),
    ensures
        parse_opt_u8(s, i) == Option::Some((o, i + print_opt_u8(o).len())),
{
    reveal_strlit("null");
    match o {
        Option::None => {
            assert(s[i] == "null"@[0]) by {
                assert(s[i + 0] == s.subrange(i, i + 4)[0]);
            }
            assert(!is_digit(s[i]));
            assert(parse_lit(s, i, "null"@) == Option::Some(i + 4));
        },
        Option::Some(n) => {
            assert(s[i] == print_u8(n)[0]) by {
                assert(s[i + 0] == s.subrange(i, i + print_u8(n).len())[0]);
            }
            if n < 10 {
                lemma_digit_vals(n);
            } else if n < 100 {
                lemma_digit_vals(n / 10);
            } else {
                lemma_digit_vals(n / 100);
            }
            assert(is_digit(s[i]));
            lemma_u8_round(s, i, n);
        },
    }
}

/// A literal parse consumes exactly the literal it expects.
pub proof fn lemma_lit_round(s: Seq<char>, i: int, l: Seq<char>)
    requires
        0 <= i,
        i + l.len() <= s.len(),
        s.subrange(i, i + l.len()) == l,
    ensures
        parse_lit(s, i, l) == Option::Some(i + l.len()),
{
}

} // verus!

verus! {

/// A piece of a matched region is itself matched at its offset.
pub proof fn lemma_chunk(s: Seq<char>, i: int, whole: Seq<char>, a: int, part: Seq<char>)
    requires
        0 <= i,
        i + whole.len() <= s.len(),
        s.subrange(i, i + whole.len()) == whole,
        0 <= a,
        a + part.len() <= whole.len(),
        forall|q: int| 0 <= q < part.len() ==> whole[a + q] == part[q],
    ensures
        s.subrange(i + a, i + a + part.len()) == part,
{
    assert forall|q: int| 0 <= q < part.len() implies s.subrange(i + a, i + a + part.len())[q]
        == part[q] by {
        assert(s.subrange(i, i + whole.len())[a + q] == whole[a + q]);
        assert(s.subrange(i + a, i + a + part.len())[q] == s[i + a + q]);
        assert(s[i + (a + q)] == whole[a + q]);
    }
    assert(s.subrange(i + a, i + a + part.len()) =~= part);
}

/// The character at an offset of a matched region.
pub proof fn lemma_chunk_char(s: Seq<char>, i: int, whole: Seq<char>, a: int)
    requires
        0 <= i,
        i + whole.len() <= s.len(),
        s.subrange(i, i + whole.len()) == whole,
        0 <= a < whole.len(),
    ensures
        s[i + a] == whole[a],
{
    assert(s.subrange(i, i + whole.len())[a] == whole[a]);
}

} // verus!

verus! {

/// A region matching a concatenation splits into its two halves.
pub proof fn lemma_split(s: Seq<char>, i: int, x: Seq<char>, y: Seq<char>)
    requires
        0 <= i,
        i + x.len() + y.len() <= s.len(),
        s.subrange(i, i + x.len() + y.len()) == x + y,
    ensures
        s.subrange(i, i + x.len()) == x,
        s.subrange(i + x.len(), i + x.len() + y.len()) == y,
{
    let w = x + y;
    assert forall|q: int| 0 <= q < x.len() implies s.subrange(i, i + x.len())[q] == x[q] by {
        assert(s.subrange(i, i + w.len())[q] == w[q]);
        assert(s.subrange(i, i + x.len())[q] == s[i + q]);
    }
    assert(s.subrange(i, i + x.len()) =~= x);
    assert forall|q: int| 0 <= q < y.len() implies s.subrange(
        i + x.len(),
        i + x.len() + y.len(),
    )[q] == y[q] by {
        assert(s.subrange(i, i + w.len())[x.len() + q] == w[x.len() + q]);
        assert(s.subrange(i + x.len(), i + x.len() + y.len())[q] == s[i + x.len() + q]);
        assert(s[i + (x.len() + q)] == w[x.len() + q]);
    }
    assert(s.subrange(i + x.len(), i + x.len() + y.len()) =~= y);
}

} // verus!

verus! {

} // verus!

verus! {

} // verus!

verus! {

/// JSON insignificant whitespace.
pub open spec fn is_ws(c: char) -> bool {
    c == ' ' || c == '\n' || c == '\t' || c == '\r'
}

/// The first position at or after `i` holding no whitespace.
pub open spec fn skip_ws(s: Seq<char>, i: int) -> int
    decreases s.len() - i,
{
    if 0 <= i < s.len() && is_ws(s[i]) {
        skip_ws(s, i + 1)
    } else {
        i
    }
}

/// Parses the items of a tag array after its opening bracket and any
/// whitespace, collecting the names as a sorted set: the order in the
/// document is irrelevant and duplicates collapse.
pub open spec fn parse_titems2(s: Seq<char>, i: int, acc: Seq<Seq<char>>) -> Option<
    (Seq<Seq<char>>, int),
>
    decreases s.len() - i,
{
    if i < 0 || i >= s.len() {
        Option::None
    } else {
        match parse_qstr(s, i) {
            Option::None => Option::None,
            Option::Some((t, j1)) => {
                let acc2 = sinsert(acc, t);
                let j2 = skip_ws(s, j1);
                if 0 <= j2 < s.len() && s[j2] == ',' {
                    let j3 = skip_ws(s, j2 + 1);
                    if step_to(s, i, j3) > i {
                        parse_titems2(s, step_to(s, i, j3), acc2)
                    } else {
                        Option::None
                    }
                } else if 0 <= j2 < s.len() && s[j2] == ']' {
                    Option::Some((acc2, j2 + 1))
                } else {
                    Option::None
                }
            },
        }
    }
}

/// Parses a tag array.
pub open spec fn parse_tags2(s: Seq<char>, i: int) -> Option<(Seq<Seq<char>>, int)> {
    if 0 <= i < s.len() && s[i] == '[' {
        let j = skip_ws(s, i + 1);
        if 0 <= j < s.len() && s[j] == ']' {
            Option::Some((Seq::empty(), j + 1))
        } else {
            parse_titems2(s, j, Seq::empty())
        }
    } else {
        Option::None
    }
}

/// Flattens a field slot: an unseen optional field is no value.
pub open spec fn slot_opt(o: Option<Option<Seq<char>>>) -> Option<Seq<char>> {
    match o {
        Option::None => Option::None,
        Option::Some(x) => x,
    }
}

/// Builds a project from its parsed fields: `name` and `git` are
/// required, hooks default to no value and the tag set to empty.
pub open spec fn pfinish(
    nm: Option<Seq<char>>,
    gt: Option<Seq<char>>,
    ac: Option<Option<Seq<char>>>,
    aw: Option<Option<Seq<char>>>,
    tg: Option<Seq<Seq<char>>>,
) -> Option<crate::config::ProjectV> {
    match (nm, gt) {
        (Option::Some(n), Option::Some(g)) => Option::Some(
            crate::config::ProjectV {
                name: n,
                git: g,
                after_clone: slot_opt(ac),
                after_workon: slot_opt(aw),
                tags: match tg {
                    Option::None => Seq::empty(),
                    Option::Some(ts) => ts,
                },
            },
        ),
        _ => Option::None,
    }
}

/// After one project field: a comma continues with the next field, a
/// closing brace finishes the record.
pub open spec fn parse_pafter(
    s: Seq<char>,
    i: int,
    nm: Option<Seq<char>>,
    gt: Option<Seq<char>>,
    ac: Option<Option<Seq<char>>>,
    aw: Option<Option<Seq<char>>>,
    tg: Option<Seq<Seq<char>>>,
    j: int,
) -> Option<(crate::config::ProjectV, int)>
    decreases s.len() - i, 0int,
{
    let j5 = skip_ws(s, j);
    if 0 <= j5 < s.len() && s[j5] == ',' {
        let j6 = skip_ws(s, j5 + 1);
        if step_to(s, i, j6) > i {
            parse_pfields(s, step_to(s, i, j6), nm, gt, ac, aw, tg)
        } else {
            Option::None
        }
    } else if 0 <= j5 < s.len() && s[j5] == '}' {
        match pfinish(nm, gt, ac, aw, tg) {
            Option::None => Option::None,
            Option::Some(pv) => Option::Some((pv, j5 + 1)),
        }
    } else {
        Option::None
    }
}

/// Parses the fields of a project record, in any order; a repeated or
/// unknown field is an error.
pub open spec fn parse_pfields(
    s: Seq<char>,
    i: int,
    nm: Option<Seq<char>>,
    gt: Option<Seq<char>>,
    ac: Option<Option<Seq<char>>>,
    aw: Option<Option<Seq<char>>>,
    tg: Option<Seq<Seq<char>>>,
) -> Option<(crate::config::ProjectV, int)>
    decreases s.len() - i, 1int,
{
    if i < 0 || i >= s.len() {
        Option::None
    } else {
        match parse_qstr(s, i) {
            Option::None => Option::None,
            Option::Some((key, j1)) => {
                let j2 = skip_ws(s, j1);
                if !(0 <= j2 < s.len() && s[j2] == ':') {
                    Option::None
                } else {
                    let j3 = skip_ws(s, j2 + 1);
                    if key == "name"@ {
                        if nm is Some {
                            Option::None
                        } else {
                            match parse_qstr(s, j3) {
                                Option::None => Option::None,
                                Option::Some((v, j4)) => parse_pafter(
                                    s, i, Option::Some(v), gt, ac, aw, tg, j4,
                                ),
                            }
                        }
                    } else if key == "git"@ {
                        if gt is Some {
                            Option::None
                        } else {
                            match parse_qstr(s, j3) {
                                Option::None => Option::None,
                                Option::Some((v, j4)) => parse_pafter(
                                    s, i, nm, Option::Some(v), ac, aw, tg, j4,
                                ),
                            }
                        }
                    } else if key == "after_clone"@ {
                        if ac is Some {
                            Option::None
                        } else {
                            match parse_opt_str(s, j3) {
                                Option::None => Option::None,
                                Option::Some((v, j4)) => parse_pafter(
                                    s, i, nm, gt, Option::Some(v), aw, tg, j4,
                                ),
                            }
                        }
                    } else if key == "after_workon"@ {
                        if aw is Some {
                            Option::None
                        } else {
                            match parse_opt_str(s, j3) {
                                Option::None => Option::None,
                                Option::Some((v, j4)) => parse_pafter(
                                    s, i, nm, gt, ac, Option::Some(v), tg, j4,
                                ),
                            }
                        }
                    } else if key == "tags"@ {
                        if tg is Some {
                            Option::None
                        } else {
                            match parse_tags2(s, j3) {
                                Option::None => Option::None,
                                Option::Some((v, j4)) => parse_pafter(
                                    s, i, nm, gt, ac, aw, Option::Some(v), j4,
                                ),
                            }
                        }
                    } else {
                        Option::None
                    }
                }
            },
        }
    }
}

/// Parses a project record.
pub open spec fn parse_project2(s: Seq<char>, i: int) -> Option<(crate::config::ProjectV, int)> {
    if 0 <= i < s.len() && s[i] == '{' {
        let j = skip_ws(s, i + 1);
        if 0 <= j < s.len() && s[j] == '}' {
            match pfinish(Option::None, Option::None, Option::None, Option::None, Option::None) {
                Option::None => Option::None,
                Option::Some(pv) => Option::Some((pv, j + 1)),
            }
        } else {
            parse_pfields(s, j, Option::None, Option::None, Option::None, Option::None, Option::None)
        }
    } else {
        Option::None
    }
}

/// Builds a tag from its parsed fields: every field is optional.
pub open spec fn tfinish(
    ac: Option<Option<Seq<char>>>,
    aw: Option<Option<Seq<char>>>,
    pr: Option<Option<u8>>,
    ws: Option<Option<Seq<char>>>,
) -> Option<crate::config::TagV> {
    Option::Some(
        crate::config::TagV {
            after_clone: slot_opt(ac),
            after_workon: slot_opt(aw),
            priority: match pr {
                Option::None => Option::None,
                Option::Some(x) => x,
            },
            workspace: slot_opt(ws),
        },
    )
}

/// After one tag field.
pub open spec fn parse_tafter(
    s: Seq<char>,
    i: int,
    ac: Option<Option<Seq<char>>>,
    aw: Option<Option<Seq<char>>>,
    pr: Option<Option<u8>>,
    ws: Option<Option<Seq<char>>>,
    j: int,
) -> Option<(crate::config::TagV, int)>
    decreases s.len() - i, 0int,
{
    let j5 = skip_ws(s, j);
    if 0 <= j5 < s.len() && s[j5] == ',' {
        let j6 = skip_ws(s, j5 + 1);
        if step_to(s, i, j6) > i {
            parse_tfields(s, step_to(s, i, j6), ac, aw, pr, ws)
        } else {
            Option::None
        }
    } else if 0 <= j5 < s.len() && s[j5] == '}' {
        match tfinish(ac, aw, pr, ws) {
            Option::None => Option::None,
            Option::Some(tv) => Option::Some((tv, j5 + 1)),
        }
    } else {
        Option::None
    }
}

/// Parses the fields of a tag record, in any order.
pub open spec fn parse_tfields(
    s: Seq<char>,
    i: int,
    ac: Option<Option<Seq<char>>>,
    aw: Option<Option<Seq<char>>>,
    pr: Option<Option<u8>>,
    ws: Option<Option<Seq<char>>>,
) -> Option<(crate::config::TagV, int)>
    decreases s.len() - i, 1int,
{
    if i < 0 || i >= s.len() {
        Option::None
    } else {
        match parse_qstr(s, i) {
            Option::None => Option::None,
            Option::Some((key, j1)) => {
                let j2 = skip_ws(s, j1);
                if !(0 <= j2 < s.len() && s[j2] == ':') {
                    Option::None
                } else {
                    let j3 = skip_ws(s, j2 + 1);
                    if key == "after_clone"@ {
                        if ac is Some {
                            Option::None
                        } else {
                            match parse_opt_str(s, j3) {
                                Option::None => Option::None,
                                Option::Some((v, j4)) => parse_tafter(
                                    s, i, Option::Some(v), aw, pr, ws, j4,
                                ),
                            }
                        }
                    } else if key == "after_workon"@ {
                        if aw is Some {
                            Option::None
                        } else {
                            match parse_opt_str(s, j3) {
                                Option::None => Option::None,
                                Option::Some((v, j4)) => parse_tafter(
                                    s, i, ac, Option::Some(v), pr, ws, j4,
                                ),
                            }
                        }
                    } else if key == "priority"@ {
                        if pr is Some {
                            Option::None
                        } else {
                            match parse_opt_u8(s, j3) {
                                Option::None => Option::None,
                                Option::Some((v, j4)) => parse_tafter(
                                    s, i, ac, aw, Option::Some(v), ws, j4,
                                ),
                            }
                        }
                    } else if key == "workspace"@ {
                        if ws is Some {
                            Option::None
                        } else {
                            match parse_opt_str(s, j3) {
                                Option::None => Option::None,
                                Option::Some((v, j4)) => parse_tafter(
                                    s, i, ac, aw, pr, Option::Some(v), j4,
                                ),
                            }
                        }
                    } else {
                        Option::None
                    }
                }
            },
        }
    }
}

/// Parses a tag record.
pub open spec fn parse_tagv2(s: Seq<char>, i: int) -> Option<(crate::config::TagV, int)> {
    if 0 <= i < s.len() && s[i] == '{' {
        let j = skip_ws(s, i + 1);
        if 0 <= j < s.len() && s[j] == '}' {
            match tfinish(Option::None, Option::None, Option::None, Option::None) {
                Option::None => Option::None,
                Option::Some(tv) => Option::Some((tv, j + 1)),
            }
        } else {
            parse_tfields(s, j, Option::None, Option::None, Option::None, Option::None)
        }
    } else {
        Option::None
    }
}

/// Parses the entries of the project map after its opening brace,
/// inserting each binding at its ordered position: keys may come in
/// any order and the last binding of a repeated key wins.
pub open spec fn parse_pentries2(
    s: Seq<char>,
    i: int,
    acc: Seq<(Seq<char>, crate::config::ProjectV)>,
) -> Option<(Seq<(Seq<char>, crate::config::ProjectV)>, int)>
    decreases s.len() - i,
{
    if i < 0 || i >= s.len() {
        Option::None
    } else {
        match parse_qstr(s, i) {
            Option::None => Option::None,
            Option::Some((k, j1)) => {
                let j2 = skip_ws(s, j1);
                if !(0 <= j2 < s.len() && s[j2] == ':') {
                    Option::None
                } else {
                    let j3 = skip_ws(s, j2 + 1);
                    match parse_project2(s, j3) {
                        Option::None => Option::None,
                        Option::Some((pv, j4)) => {
                            let acc2 = ainsert(acc, k, pv);
                            let j5 = skip_ws(s, j4);
                            if 0 <= j5 < s.len() && s[j5] == ',' {
                                let j6 = skip_ws(s, j5 + 1);
                                if step_to(s, i, j6) > i {
                                    parse_pentries2(s, step_to(s, i, j6), acc2)
                                } else {
                                    Option::None
                                }
                            } else if 0 <= j5 < s.len() && s[j5] == '}' {
                                Option::Some((acc2, j5 + 1))
                            } else {
                                Option::None
                            }
                        },
                    }
                }
            },
        }
    }
}

/// Parses the project map.
pub open spec fn parse_pobj(s: Seq<char>, i: int) -> Option<
    (Seq<(Seq<char>, crate::config::ProjectV)>, int),
> {
    if 0 <= i < s.len() && s[i] == '{' {
        let j = skip_ws(s, i + 1);
        if 0 <= j < s.len() && s[j] == '}' {
            Option::Some((Seq::empty(), j + 1))
        } else {
            parse_pentries2(s, j, Seq::empty())
        }
    } else {
        Option::None
    }
}

/// Parses the entries of the tag catalog after its opening brace.
pub open spec fn parse_centries2(
    s: Seq<char>,
    i: int,
    acc: Seq<(Seq<char>, crate::config::TagV)>,
) -> Option<(Seq<(Seq<char>, crate::config::TagV)>, int)>
    decreases s.len() - i,
{
    if i < 0 || i >= s.len() {
        Option::None
    } else {
        match parse_qstr(s, i) {
            Option::None => Option::None,
            Option::Some((k, j1)) => {
                let j2 = skip_ws(s, j1);
                if !(0 <= j2 < s.len() && s[j2] == ':') {
                    Option::None
                } else {
                    let j3 = skip_ws(s, j2 + 1);
                    match parse_tagv2(s, j3) {
                        Option::None => Option::None,
                        Option::Some((tv, j4)) => {
                            let acc2 = ainsert(acc, k, tv);
                            let j5 = skip_ws(s, j4);
                            if 0 <= j5 < s.len() && s[j5] == ',' {
                                let j6 = skip_ws(s, j5 + 1);
                                if step_to(s, i, j6) > i {
                                    parse_centries2(s, step_to(s, i, j6), acc2)
                                } else {
                                    Option::None
                                }
                            } else if 0 <= j5 < s.len() && s[j5] == '}' {
                                Option::Some((acc2, j5 + 1))
                            } else {
                                Option::None
                            }
                        },
                    }
                }
            },
        }
    }
}

/// Parses the tag catalog.
pub open spec fn parse_cobj(s: Seq<char>, i: int) -> Option<
    (Seq<(Seq<char>, crate::config::TagV)>, int),
> {
    if 0 <= i < s.len() && s[i] == '{' {
        let j = skip_ws(s, i + 1);
        if 0 <= j < s.len() && s[j] == '}' {
            Option::Some((Seq::empty(), j + 1))
        } else {
            parse_centries2(s, j, Seq::empty())
        }
    } else {
        Option::None
    }
}

/// Parses the optional catalog: `null` or a catalog object.
pub open spec fn parse_opttags(s: Seq<char>, i: int) -> Option<
    (Option<Seq<(Seq<char>, crate::config::TagV)>>, int),
> {
    if 0 <= i < s.len() && s[i] == '{' {
        match parse_cobj(s, i) {
            Option::None => Option::None,
            Option::Some((cat, j)) => Option::Some((Option::Some(cat), j)),
        }
    } else {
        match parse_lit(s, i, "null"@) {
            Option::None => Option::None,
            Option::Some(j) => Option::Some((Option::None, j)),
        }
    }
}

/// Builds the settings from parsed fields: `workspace` is required,
/// an absent `tags` field is no catalog.
pub open spec fn sfinish(
    ws: Option<Seq<char>>,
    tg: Option<Option<Seq<(Seq<char>, crate::config::TagV)>>>,
) -> Option<crate::config::SettingsV> {
    match ws {
        Option::Some(w) => Option::Some(
            crate::config::SettingsV {
                workspace: w,
                tags: match tg {
                    Option::None => Option::None,
                    Option::Some(x) => x,
                },
            },
        ),
        Option::None => Option::None,
    }
}

/// After one settings field.
pub open spec fn parse_safter(
    s: Seq<char>,
    i: int,
    ws: Option<Seq<char>>,
    tg: Option<Option<Seq<(Seq<char>, crate::config::TagV)>>>,
    j: int,
) -> Option<(crate::config::SettingsV, int)>
    decreases s.len() - i, 0int,
{
    let j5 = skip_ws(s, j);
    if 0 <= j5 < s.len() && s[j5] == ',' {
        let j6 = skip_ws(s, j5 + 1);
        if step_to(s, i, j6) > i {
            parse_sfields(s, step_to(s, i, j6), ws, tg)
        } else {
            Option::None
        }
    } else if 0 <= j5 < s.len() && s[j5] == '}' {
        match sfinish(ws, tg) {
            Option::None => Option::None,
            Option::Some(sv) => Option::Some((sv, j5 + 1)),
        }
    } else {
        Option::None
    }
}

/// Parses the fields of the settings record, in any order.
pub open spec fn parse_sfields(
    s: Seq<char>,
    i: int,
    ws: Option<Seq<char>>,
    tg: Option<Option<Seq<(Seq<char>, crate::config::TagV)>>>,
) -> Option<(crate::config::SettingsV, int)>
    decreases s.len() - i, 1int,
{
    if i < 0 || i >= s.len() {
        Option::None
    } else {
        match parse_qstr(s, i) {
            Option::None => Option::None,
            Option::Some((key, j1)) => {
                let j2 = skip_ws(s, j1);
                if !(0 <= j2 < s.len() && s[j2] == ':') {
                    Option::None
                } else {
                    let j3 = skip_ws(s, j2 + 1);
                    if key == "workspace"@ {
                        if ws is Some {
                            Option::None
                        } else {
                            match parse_qstr(s, j3) {
                                Option::None => Option::None,
                                Option::Some((v, j4)) => parse_safter(
                                    s, i, Option::Some(v), tg, j4,
                                ),
                            }
                        }
                    } else if key == "tags"@ {
                        if tg is Some {
                            Option::None
                        } else {
                            match parse_opttags(s, j3) {
                                Option::None => Option::None,
                                Option::Some((v, j4)) => parse_safter(
                                    s, i, ws, Option::Some(v), j4,
                                ),
                            }
                        }
                    } else {
                        Option::None
                    }
                }
            },
        }
    }
}

/// Parses the settings record.
pub open spec fn parse_settings2(s: Seq<char>, i: int) -> Option<(crate::config::SettingsV, int)> {
    if 0 <= i < s.len() && s[i] == '{' {
        let j = skip_ws(s, i + 1);
        if 0 <= j < s.len() && s[j] == '}' {
            match sfinish(Option::None, Option::None) {
                Option::None => Option::None,
                Option::Some(sv) => Option::Some((sv, j + 1)),
            }
        } else {
            parse_sfields(s, j, Option::None, Option::None)
        }
    } else {
        Option::None
    }
}

/// Builds the registry from parsed root fields: both are required.
pub open spec fn rfinish(
    pj: Option<Seq<(Seq<char>, crate::config::ProjectV)>>,
    st: Option<crate::config::SettingsV>,
) -> Option<crate::config::ConfigV> {
    match (pj, st) {
        (Option::Some(p), Option::Some(s)) => Option::Some(
            crate::config::ConfigV { projects: p, settings: s },
        ),
        _ => Option::None,
    }
}

/// After one root field.
pub open spec fn parse_rafter(
    s: Seq<char>,
    i: int,
    pj: Option<Seq<(Seq<char>, crate::config::ProjectV)>>,
    st: Option<crate::config::SettingsV>,
    j: int,
) -> Option<(crate::config::ConfigV, int)>
    decreases s.len() - i, 0int,
{
    let j5 = skip_ws(s, j);
    if 0 <= j5 < s.len() && s[j5] == ',' {
        let j6 = skip_ws(s, j5 + 1);
        if step_to(s, i, j6) > i {
            parse_rfields(s, step_to(s, i, j6), pj, st)
        } else {
            Option::None
        }
    } else if 0 <= j5 < s.len() && s[j5] == '}' {
        match rfinish(pj, st) {
            Option::None => Option::None,
            Option::Some(cv) => Option::Some((cv, j5 + 1)),
        }
    } else {
        Option::None
    }
}

/// Parses the fields of the root record, in any order.
pub open spec fn parse_rfields(
    s: Seq<char>,
    i: int,
    pj: Option<Seq<(Seq<char>, crate::config::ProjectV)>>,
    st: Option<crate::config::SettingsV>,
) -> Option<(crate::config::ConfigV, int)>
    decreases s.len() - i, 1int,
{
    if i < 0 || i >= s.len() {
        Option::None
    } else {
        match parse_qstr(s, i) {
            Option::None => Option::None,
            Option::Some((key, j1)) => {
                let j2 = skip_ws(s, j1);
                if !(0 <= j2 < s.len() && s[j2] == ':') {
                    Option::None
                } else {
                    let j3 = skip_ws(s, j2 + 1);
                    if key == "projects"@ {
                        if pj is Some {
                            Option::None
                        } else {
                            match parse_pobj(s, j3) {
                                Option::None => Option::None,
                                Option::Some((v, j4)) => parse_rafter(
                                    s, i, Option::Some(v), st, j4,
                                ),
                            }
                        }
                    } else if key == "settings"@ {
                        if st is Some {
                            Option::None
                        } else {
                            match parse_settings2(s, j3) {
                                Option::None => Option::None,
                                Option::Some((v, j4)) => parse_rafter(
                                    s, i, pj, Option::Some(v), j4,
                                ),
                            }
                        }
                    } else {
                        Option::None
                    }
                }
            },
        }
    }
}

/// Parses a whole registry document.
pub open spec fn parse_config2(s: Seq<char>, i: int) -> Option<(crate::config::ConfigV, int)> {
    if 0 <= i < s.len() && s[i] == '{' {
        let j = skip_ws(s, i + 1);
        if 0 <= j < s.len() && s[j] == '}' {
            match rfinish(Option::None, Option::None) {
                Option::None => Option::None,
                Option::Some(cv) => Option::Some((cv, j + 1)),
            }
        } else {
            parse_rfields(s, j, Option::None, Option::None)
        }
    } else {
        Option::None
    }
}

/// What `decode` returns: the registry of any structurally valid
/// document of the expected shape, surrounding whitespace included.
pub open spec fn decode_spec(s: Seq<char>) -> Option<crate::config::ConfigV> {
    let i = skip_ws(s, 0);
    match parse_config2(s, i) {
        Option::None => Option::None,
        Option::Some((c, j)) => {
            if skip_ws(s, j) == s.len() {
                Option::Some(c)
            } else {
                Option::None
            }
        },
    }
}

} // verus!

verus! {

/// The view of a string slot.
pub open spec fn oo_view(o: Option<Option<String>>) -> Option<Option<Seq<char>>> {
    match o {
        Option::None => Option::None,
        Option::Some(x) => Option::Some(crate::config::opt_view(x)),
    }
}

/// The view of a tag-set slot.
pub open spec fn tg_view(o: Option<Vec<String>>) -> Option<Seq<Seq<char>>> {
    match o {
        Option::None => Option::None,
        Option::Some(v) => Option::Some(crate::config::names_view(v@)),
    }
}

/// The view of a catalog slot.
pub open spec fn cat_view(o: Option<Option<Vec<(String, crate::config::Tag)>>>) -> Option<
    Option<Seq<(Seq<char>, crate::config::TagV)>>,
> {
    match o {
        Option::None => Option::None,
        Option::Some(Option::None) => Option::Some(Option::None),
        Option::Some(Option::Some(v)) => Option::Some(Option::Some(crate::config::aview(v@))),
    }
}

/// The view of a project-map slot.
pub open spec fn pj_view(o: Option<Vec<(String, crate::config::Project)>>) -> Option<
    Seq<(Seq<char>, crate::config::ProjectV)>,
> {
    match o {
        Option::None => Option::None,
        Option::Some(v) => Option::Some(crate::config::aview(v@)),
    }
}

/// The view of a settings slot.
pub open spec fn st_view(o: Option<crate::config::Settings>) -> Option<crate::config::SettingsV> {
    match o {
        Option::None => Option::None,
        Option::Some(v) => Option::Some(v@),
    }
}

/// Skips whitespace, executable.
fn skip_ws_exec(s: &Vec<char>, i: usize) -> (r: usize)
    ensures
        r as int == skip_ws(s@, i as int),
        i <= r <= s.len() || (i > s.len() && r == i),
{
    let mut j = i;
    while j < s.len() && (s[j] == ' ' || s[j] == '\n' || s[j] == '\t' || s[j] == '\r')
        invariant
            i <= j,
            i <= s.len() ==> j <= s.len(),
            skip_ws(s@, i as int) == skip_ws(s@, j as int),
        decreases s.len() - j,
    {
        j = j + 1;
    }
    j
}

/// Parses tag-array items, executable.
fn parse_titems2_exec(s: &Vec<char>, i: usize, acc: Vec<String>) -> (r: Option<
    (Vec<String>, usize),
>)
    ensures
        ({
            let sp = parse_titems2(s@, i as int, crate::config::names_view(acc@));
            match r {
                Option::Some((v, j)) => sp == Option::Some(
                    (crate::config::names_view(v@), j as int),
                ) && i < j <= s.len(),
                Option::None => sp is None,
            }
        }),
    decreases s.len() - i,
{
    if i >= s.len() {
        return Option::None;
    }
    let (t, j1) = match parse_qstr_exec(s, i) {
        Option::None => {
            return Option::None;
        },
        Option::Some(p) => p,
    };
    let acc2 = sinsert_exec(acc, t);
    let j2 = skip_ws_exec(s, j1);
    if j2 < s.len() && s[j2] == ',' {
        let j3 = skip_ws_exec(s, j2 + 1);
        proof {
            assert(step_to(s@, i as int, j3 as int) == j3 as int);
        }
        parse_titems2_exec(s, j3, acc2)
    } else if j2 < s.len() && s[j2] == ']' {
        Option::Some((acc2, j2 + 1))
    } else {
        Option::None
    }
}

/// Parses a tag array, executable.
fn parse_tags2_exec(s: &Vec<char>, i: usize) -> (r: Option<(Vec<String>, usize)>)
    ensures
        ({
            let sp = parse_tags2(s@, i as int);
            match r {
                Option::Some((v, j)) => sp == Option::Some(
                    (crate::config::names_view(v@), j as int),
                ) && i < j <= s.len(),
                Option::None => sp is None,
            }
        }),
{
    if !(i < s.len() && s[i] == '[') {
        return Option::None;
    }
    let j = skip_ws_exec(s, i + 1);
    if j < s.len() && s[j] == ']' {
        let v: Vec<String> = Vec::new();
        proof {
            assert(crate::config::names_view(v@) =~= Seq::<Seq<char>>::empty());
        }
        Option::Some((v, j + 1))
    } else {
        let acc: Vec<String> = Vec::new();
        proof {
            assert(crate::config::names_view(acc@) =~= Seq::<Seq<char>>::empty());
        }
        parse_titems2_exec(s, j, acc)
    }
}

/// Parses the fields of a project record, executable.
fn parse_pfields_exec(
    s: &Vec<char>,
    i: usize,
    nm: Option<String>,
    gt: Option<String>,
    ac: Option<Option<String>>,
    aw: Option<Option<String>>,
    tg: Option<Vec<String>>,
) -> (r: Option<(crate::config::Project, usize)>)
    ensures
        ({
            let sp = parse_pfields(
                s@,
                i as int,
                crate::config::opt_view(nm),
                crate::config::opt_view(gt),
                oo_view(ac),
                oo_view(aw),
                tg_view(tg),
            );
            match r {
                Option::Some((p, j)) => sp == Option::Some((p@, j as int)) && i < j <= s.len(),
                Option::None => sp is None,
            }
        }),
    decreases s.len() - i,
{
    let ghost sp = parse_pfields(
        s@,
        i as int,
        crate::config::opt_view(nm),
        crate::config::opt_view(gt),
        oo_view(ac),
        oo_view(aw),
        tg_view(tg),
    );
    if i >= s.len() {
        return Option::None;
    }
    let (key, j1) = match parse_qstr_exec(s, i) {
        Option::None => {
            return Option::None;
        },
        Option::Some(p) => p,
    };
    let j2 = skip_ws_exec(s, j1);
    if !(j2 < s.len() && s[j2] == ':') {
        return Option::None;
    }
    let j3 = skip_ws_exec(s, j2 + 1);
    let mut nm = nm;
    let mut gt = gt;
    let mut ac = ac;
    let mut aw = aw;
    let mut tg = tg;
    let j4: usize;
    if str_eq(key.as_str(), "name") {
        if nm.is_some() {
            return Option::None;
        }
        let (v, j) = match parse_qstr_exec(s, j3) {
            Option::None => {
                return Option::None;
            },
            Option::Some(p) => p,
        };
        nm = Option::Some(v);
        j4 = j;
    } else if str_eq(key.as_str(), "git") {
        if gt.is_some() {
            return Option::None;
        }
        let (v, j) = match parse_qstr_exec(s, j3) {
            Option::None => {
                return Option::None;
            },
            Option::Some(p) => p,
        };
        gt = Option::Some(v);
        j4 = j;
    } else if str_eq(key.as_str(), "after_clone") {
        if ac.is_some() {
            return Option::None;
        }
        let (v, j) = match parse_opt_str_exec(s, j3) {
            Option::None => {
                return Option::None;
            },
            Option::Some(p) => p,
        };
        ac = Option::Some(v);
        j4 = j;
    } else if str_eq(key.as_str(), "after_workon") {
        if aw.is_some() {
            return Option::None;
        }
        let (v, j) = match parse_opt_str_exec(s, j3) {
            Option::None => {
                return Option::None;
            },
            Option::Some(p) => p,
        };
        aw = Option::Some(v);
        j4 = j;
    } else if str_eq(key.as_str(), "tags") {
        if tg.is_some() {
            return Option::None;
        }
        let (v, j) = match parse_tags2_exec(s, j3) {
            Option::None => {
                return Option::None;
            },
            Option::Some(p) => p,
        };
        tg = Option::Some(v);
        j4 = j;
    } else {
        return Option::None;
    }
    proof {
        assert(sp == parse_pafter(
            s@,
            i as int,
            crate::config::opt_view(nm),
            crate::config::opt_view(gt),
            oo_view(ac),
            oo_view(aw),
            tg_view(tg),
            j4 as int,
        ));
    }
    let j5 = skip_ws_exec(s, j4);
    if j5 < s.len() && s[j5] == ',' {
        let j6 = skip_ws_exec(s, j5 + 1);
        proof {
            assert(step_to(s@, i as int, j6 as int) == j6 as int);
        }
        parse_pfields_exec(s, j6, nm, gt, ac, aw, tg)
    } else if j5 < s.len() && s[j5] == '}' {
        let name = match nm {
            Option::Some(x) => x,
            Option::None => {
                return Option::None;
            },
        };
        let git = match gt {
            Option::Some(x) => x,
            Option::None => {
                return Option::None;
            },
        };
        let p = crate::config::Project {
            name,
            git,
            after_clone: match ac {
                Option::None => Option::None,
                Option::Some(x) => x,
            },
            after_workon: match aw {
                Option::None => Option::None,
                Option::Some(x) => x,
            },
            tags: match tg {
                Option::None => Vec::new(),
                Option::Some(v) => v,
            },
        };
        proof {
            assert(crate::config::names_view(Seq::<String>::empty())
                =~= Seq::<Seq<char>>::empty());
            assert(Option::Some((p@, (j5 + 1) as int)) =~~= sp);
        }
        Option::Some((p, j5 + 1))
    } else {
        Option::None
    }
}

/// Parses a project record, executable.
fn parse_project2_exec(s: &Vec<char>, i: usize) -> (r: Option<(crate::config::Project, usize)>)
    ensures
        ({
            let sp = parse_project2(s@, i as int);
            match r {
                Option::Some((p, j)) => sp == Option::Some((p@, j as int)) && i < j <= s.len(),
                Option::None => sp is None,
            }
        }),
{
    if !(i < s.len() && s[i] == '{') {
        return Option::None;
    }
    let j = skip_ws_exec(s, i + 1);
    if j < s.len() && s[j] == '}' {
        Option::None
    } else {
        parse_pfields_exec(s, j, Option::None, Option::None, Option::None, Option::None, Option::None)
    }
}

/// Parses the fields of a tag record, executable.
fn parse_tfields_exec(
    s: &Vec<char>,
    i: usize,
    ac: Option<Option<String>>,
    aw: Option<Option<String>>,
    pr: Option<Option<u8>>,
    ws: Option<Option<String>>,
) -> (r: Option<(crate::config::Tag, usize)>)
    ensures
        ({
            let sp = parse_tfields(s@, i as int, oo_view(ac), oo_view(aw), pr, oo_view(ws));
            match r {
                Option::Some((t, j)) => sp == Option::Some((t@, j as int)) && i < j <= s.len(),
                Option::None => sp is None,
            }
        }),
    decreases s.len() - i,
{
    let ghost sp = parse_tfields(s@, i as int, oo_view(ac), oo_view(aw), pr, oo_view(ws));
    if i >= s.len() {
        return Option::None;
    }
    let (key, j1) = match parse_qstr_exec(s, i) {
        Option::None => {
            return Option::None;
        },
        Option::Some(p) => p,
    };
    let j2 = skip_ws_exec(s, j1);
    if !(j2 < s.len() && s[j2] == ':') {
        return Option::None;
    }
    let j3 = skip_ws_exec(s, j2 + 1);
    let mut ac = ac;
    let mut aw = aw;
    let mut pr = pr;
    let mut ws = ws;
    let j4: usize;
    if str_eq(key.as_str(), "after_clone") {
        if ac.is_some() {
            return Option::None;
        }
        let (v, j) = match parse_opt_str_exec(s, j3) {
            Option::None => {
                return Option::None;
            },
            Option::Some(p) => p,
        };
        ac = Option::Some(v);
        j4 = j;
    } else if str_eq(key.as_str(), "after_workon") {
        if aw.is_some() {
            return Option::None;
        }
        let (v, j) = match parse_opt_str_exec(s, j3) {
            Option::None => {
                return Option::None;
            },
            Option::Some(p) => p,
        };
        aw = Option::Some(v);
        j4 = j;
    } else if str_eq(key.as_str(), "priority") {
        if pr.is_some() {
            return Option::None;
        }
        let (v, j) = match parse_opt_u8_exec(s, j3) {
            Option::None => {
                return Option::None;
            },
            Option::Some(p) => p,
        };
        pr = Option::Some(v);
        j4 = j;
    } else if str_eq(key.as_str(), "workspace") {
        if ws.is_some() {
            return Option::None;
        }
        let (v, j) = match parse_opt_str_exec(s, j3) {
            Option::None => {
                return Option::None;
            },
            Option::Some(p) => p,
        };
        ws = Option::Some(v);
        j4 = j;
    } else {
        return Option::None;
    }
    proof {
        assert(sp == parse_tafter(
            s@,
            i as int,
            oo_view(ac),
            oo_view(aw),
            pr,
            oo_view(ws),
            j4 as int,
        ));
    }
    let j5 = skip_ws_exec(s, j4);
    if j5 < s.len() && s[j5] == ',' {
        let j6 = skip_ws_exec(s, j5 + 1);
        proof {
            assert(step_to(s@, i as int, j6 as int) == j6 as int);
        }
        parse_tfields_exec(s, j6, ac, aw, pr, ws)
    } else if j5 < s.len() && s[j5] == '}' {
        let t = crate::config::Tag {
            after_clone: match ac {
                Option::None => Option::None,
                Option::Some(x) => x,
            },
            after_workon: match aw {
                Option::None => Option::None,
                Option::Some(x) => x,
            },
            priority: match pr {
                Option::None => Option::None,
                Option::Some(x) => x,
            },
            workspace: match ws {
                Option::None => Option::None,
                Option::Some(x) => x,
            },
        };
        proof {
            assert(Option::Some((t@, (j5 + 1) as int)) =~~= sp);
        }
        Option::Some((t, j5 + 1))
    } else {
        Option::None
    }
}

/// Parses a tag record, executable.
fn parse_tagv2_exec(s: &Vec<char>, i: usize) -> (r: Option<(crate::config::Tag, usize)>)
    ensures
        ({
            let sp = parse_tagv2(s@, i as int);
            match r {
                Option::Some((t, j)) => sp == Option::Some((t@, j as int)) && i < j <= s.len(),
                Option::None => sp is None,
            }
        }),
{
    if !(i < s.len() && s[i] == '{') {
        return Option::None;
    }
    let j = skip_ws_exec(s, i + 1);
    if j < s.len() && s[j] == '}' {
        let t = crate::config::Tag {
            after_clone: Option::None,
            after_workon: Option::None,
            priority: Option::None,
            workspace: Option::None,
        };
        proof {
            assert(Option::Some((t@, (j + 1) as int)) =~~= parse_tagv2(s@, i as int));
        }
        Option::Some((t, j + 1))
    } else {
        parse_tfields_exec(s, j, Option::None, Option::None, Option::None, Option::None)
    }
}

/// Parses the entries of the project map, executable.
fn parse_pentries2_exec(
    s: &Vec<char>,
    i: usize,
    acc: Vec<(String, crate::config::Project)>,
) -> (r: Option<(Vec<(String, crate::config::Project)>, usize)>)
    ensures
        ({
            let sp = parse_pentries2(s@, i as int, crate::config::aview(acc@));
            match r {
                Option::Some((v, j)) => sp == Option::Some(
                    (crate::config::aview(v@), j as int),
                ) && i < j <= s.len(),
                Option::None => sp is None,
            }
        }),
    decreases s.len() - i,
{
    if i >= s.len() {
        return Option::None;
    }
    let (k, j1) = match parse_qstr_exec(s, i) {
        Option::None => {
            return Option::None;
        },
        Option::Some(p) => p,
    };
    let j2 = skip_ws_exec(s, j1);
    if !(j2 < s.len() && s[j2] == ':') {
        return Option::None;
    }
    let j3 = skip_ws_exec(s, j2 + 1);
    let (pv, j4) = match parse_project2_exec(s, j3) {
        Option::None => {
            return Option::None;
        },
        Option::Some(p) => p,
    };
    let acc2 = ainsert_exec(acc, k, pv);
    let j5 = skip_ws_exec(s, j4);
    if j5 < s.len() && s[j5] == ',' {
        let j6 = skip_ws_exec(s, j5 + 1);
        proof {
            assert(step_to(s@, i as int, j6 as int) == j6 as int);
        }
        parse_pentries2_exec(s, j6, acc2)
    } else if j5 < s.len() && s[j5] == '}' {
        Option::Some((acc2, j5 + 1))
    } else {
        Option::None
    }
}

/// Parses the project map, executable.
fn parse_pobj_exec(s: &Vec<char>, i: usize) -> (r: Option<
    (Vec<(String, crate::config::Project)>, usize),
>)
    ensures
        ({
            let sp = parse_pobj(s@, i as int);
            match r {
                Option::Some((v, j)) => sp == Option::Some(
                    (crate::config::aview(v@), j as int),
                ) && i < j <= s.len(),
                Option::None => sp is None,
            }
        }),
{
    if !(i < s.len() && s[i] == '{') {
        return Option::None;
    }
    let j = skip_ws_exec(s, i + 1);
    if j < s.len() && s[j] == '}' {
        let v: Vec<(String, crate::config::Project)> = Vec::new();
        proof {
            assert(crate::config::aview(v@)
                =~= Seq::<(Seq<char>, crate::config::ProjectV)>::empty());
        }
        Option::Some((v, j + 1))
    } else {
        let acc: Vec<(String, crate::config::Project)> = Vec::new();
        proof {
            assert(crate::config::aview(acc@)
                =~= Seq::<(Seq<char>, crate::config::ProjectV)>::empty());
        }
        parse_pentries2_exec(s, j, acc)
    }
}

/// Parses the entries of the tag catalog, executable.
fn parse_centries2_exec(
    s: &Vec<char>,
    i: usize,
    acc: Vec<(String, crate::config::Tag)>,
) -> (r: Option<(Vec<(String, crate::config::Tag)>, usize)>)
    ensures
        ({
            let sp = parse_centries2(s@, i as int, crate::config::aview(acc@));
            match r {
                Option::Some((v, j)) => sp == Option::Some(
                    (crate::config::aview(v@), j as int),
                ) && i < j <= s.len(),
                Option::None => sp is None,
            }
        }),
    decreases s.len() - i,
{
    if i >= s.len() {
        return Option::None;
    }
    let (k, j1) = match parse_qstr_exec(s, i) {
        Option::None => {
            return Option::None;
        },
        Option::Some(p) => p,
    };
    let j2 = skip_ws_exec(s, j1);
    if !(j2 < s.len() && s[j2] == ':') {
        return Option::None;
    }
    let j3 = skip_ws_exec(s, j2 + 1);
    let (tv, j4) = match parse_tagv2_exec(s, j3) {
        Option::None => {
            return Option::None;
        },
        Option::Some(p) => p,
    };
    let acc2 = ainsert_exec(acc, k, tv);
    let j5 = skip_ws_exec(s, j4);
    if j5 < s.len() && s[j5] == ',' {
        let j6 = skip_ws_exec(s, j5 + 1);
        proof {
            assert(step_to(s@, i as int, j6 as int) == j6 as int);
        }
        parse_centries2_exec(s, j6, acc2)
    } else if j5 < s.len() && s[j5] == '}' {
        Option::Some((acc2, j5 + 1))
    } else {
        Option::None
    }
}

/// Parses the optional tag catalog, executable.
fn parse_opttags_exec(s: &Vec<char>, i: usize) -> (r: Option<
    (Option<Vec<(String, crate::config::Tag)>>, usize),
>)
    ensures
        ({
            let sp = parse_opttags(s@, i as int);
            match r {
                Option::Some((v, j)) => sp == Option::Some(
                    (
                        match v {
                            Option::None => Option::None,
                            Option::Some(c) => Option::Some(crate::config::aview(c@)),
                        },
                        j as int,
                    ),
                ) && i < j <= s.len(),
                Option::None => sp is None,
            }
        }),
{
    if i < s.len() && s[i] == '{' {
        let j = skip_ws_exec(s, i + 1);
        if j < s.len() && s[j] == '}' {
            let v: Vec<(String, crate::config::Tag)> = Vec::new();
            proof {
                assert(crate::config::aview(v@)
                    =~= Seq::<(Seq<char>, crate::config::TagV)>::empty());
            }
            Option::Some((Option::Some(v), j + 1))
        } else {
            let acc: Vec<(String, crate::config::Tag)> = Vec::new();
            proof {
                assert(crate::config::aview(acc@)
                    =~= Seq::<(Seq<char>, crate::config::TagV)>::empty());
            }
            match parse_centries2_exec(s, j, acc) {
                Option::None => Option::None,
                Option::Some((v, j2)) => Option::Some((Option::Some(v), j2)),
            }
        }
    } else {
        match expect_lit(s, i, "null") {
            Option::None => Option::None,
            Option::Some(j) => {
                proof {
                    reveal_strlit("null");
                }
                Option::Some((Option::None, j))
            },
        }
    }
}

/// Parses the fields of the settings record, executable.
fn parse_sfields_exec(
    s: &Vec<char>,
    i: usize,
    ws: Option<String>,
    tg: Option<Option<Vec<(String, crate::config::Tag)>>>,
) -> (r: Option<(crate::config::Settings, usize)>)
    ensures
        ({
            let sp = parse_sfields(s@, i as int, crate::config::opt_view(ws), cat_view(tg));
            match r {
                Option::Some((v, j)) => sp == Option::Some((v@, j as int)) && i < j <= s.len(),
                Option::None => sp is None,
            }
        }),
    decreases s.len() - i,
{
    let ghost sp = parse_sfields(s@, i as int, crate::config::opt_view(ws), cat_view(tg));
    if i >= s.len() {
        return Option::None;
    }
    let (key, j1) = match parse_qstr_exec(s, i) {
        Option::None => {
            return Option::None;
        },
        Option::Some(p) => p,
    };
    let j2 = skip_ws_exec(s, j1);
    if !(j2 < s.len() && s[j2] == ':') {
        return Option::None;
    }
    let j3 = skip_ws_exec(s, j2 + 1);
    let mut ws = ws;
    let mut tg = tg;
    let j4: usize;
    if str_eq(key.as_str(), "workspace") {
        if ws.is_some() {
            return Option::None;
        }
        let (v, j) = match parse_qstr_exec(s, j3) {
            Option::None => {
                return Option::None;
            },
            Option::Some(p) => p,
        };
        ws = Option::Some(v);
        j4 = j;
    } else if str_eq(key.as_str(), "tags") {
        if tg.is_some() {
            return Option::None;
        }
        let (v, j) = match parse_opttags_exec(s, j3) {
            Option::None => {
                return Option::None;
            },
            Option::Some(p) => p,
        };
        tg = Option::Some(v);
        j4 = j;
    } else {
        return Option::None;
    }
    proof {
        assert(sp == parse_safter(
            s@,
            i as int,
            crate::config::opt_view(ws),
            cat_view(tg),
            j4 as int,
        ));
    }
    let j5 = skip_ws_exec(s, j4);
    if j5 < s.len() && s[j5] == ',' {
        let j6 = skip_ws_exec(s, j5 + 1);
        proof {
            assert(step_to(s@, i as int, j6 as int) == j6 as int);
        }
        parse_sfields_exec(s, j6, ws, tg)
    } else if j5 < s.len() && s[j5] == '}' {
        let workspace = match ws {
            Option::Some(x) => x,
            Option::None => {
                return Option::None;
            },
        };
        let v = crate::config::Settings {
            workspace,
            tags: match tg {
                Option::None => Option::None,
                Option::Some(x) => x,
            },
        };
        proof {
            assert(Option::Some((v@, (j5 + 1) as int)) =~~= sp);
        }
        Option::Some((v, j5 + 1))
    } else {
        Option::None
    }
}

/// Parses the settings record, executable.
fn parse_settings2_exec(s: &Vec<char>, i: usize) -> (r: Option<(crate::config::Settings, usize)>)
    ensures
        ({
            let sp = parse_settings2(s@, i as int);
            match r {
                Option::Some((v, j)) => sp == Option::Some((v@, j as int)) && i < j <= s.len(),
                Option::None => sp is None,
            }
        }),
{
    if !(i < s.len() && s[i] == '{') {
        return Option::None;
    }
    let j = skip_ws_exec(s, i + 1);
    if j < s.len() && s[j] == '}' {
        Option::None
    } else {
        parse_sfields_exec(s, j, Option::None, Option::None)
    }
}

/// Parses the fields of the root record, executable.
fn parse_rfields_exec(
    s: &Vec<char>,
    i: usize,
    pj: Option<Vec<(String, crate::config::Project)>>,
    st: Option<crate::config::Settings>,
) -> (r: Option<(crate::config::Config, usize)>)
    ensures
        ({
            let sp = parse_rfields(s@, i as int, pj_view(pj), st_view(st));
            match r {
                Option::Some((v, j)) => sp == Option::Some((v@, j as int)) && i < j <= s.len(),
                Option::None => sp is None,
            }
        }),
    decreases s.len() - i,
{
    let ghost sp = parse_rfields(s@, i as int, pj_view(pj), st_view(st));
    if i >= s.len() {
        return Option::None;
    }
    let (key, j1) = match parse_qstr_exec(s, i) {
        Option::None => {
            return Option::None;
        },
        Option::Some(p) => p,
    };
    let j2 = skip_ws_exec(s, j1);
    if !(j2 < s.len() && s[j2] == ':') {
        return Option::None;
    }
    let j3 = skip_ws_exec(s, j2 + 1);
    let mut pj = pj;
    let mut st = st;
    let j4: usize;
    if str_eq(key.as_str(), "projects") {
        if pj.is_some() {
            return Option::None;
        }
        let (v, j) = match parse_pobj_exec(s, j3) {
            Option::None => {
                return Option::None;
            },
            Option::Some(p) => p,
        };
        pj = Option::Some(v);
        j4 = j;
    } else if str_eq(key.as_str(), "settings") {
        if st.is_some() {
            return Option::None;
        }
        let (v, j) = match parse_settings2_exec(s, j3) {
            Option::None => {
                return Option::None;
            },
            Option::Some(p) => p,
        };
        st = Option::Some(v);
        j4 = j;
    } else {
        return Option::None;
    }
    proof {
        assert(sp == parse_rafter(s@, i as int, pj_view(pj), st_view(st), j4 as int));
    }
    let j5 = skip_ws_exec(s, j4);
    if j5 < s.len() && s[j5] == ',' {
        let j6 = skip_ws_exec(s, j5 + 1);
        proof {
            assert(step_to(s@, i as int, j6 as int) == j6 as int);
        }
        parse_rfields_exec(s, j6, pj, st)
    } else if j5 < s.len() && s[j5] == '}' {
        let projects = match pj {
            Option::Some(x) => x,
            Option::None => {
                return Option::None;
            },
        };
        let settings = match st {
            Option::Some(x) => x,
            Option::None => {
                return Option::None;
            },
        };
        let v = crate::config::Config { projects, settings };
        proof {
            assert(Option::Some((v@, (j5 + 1) as int)) =~~= sp);
        }
        Option::Some((v, j5 + 1))
    } else {
        Option::None
    }
}

/// Parses a whole registry document, executable.
fn parse_config2_exec(s: &Vec<char>, i: usize) -> (r: Option<(crate::config::Config, usize)>)
    ensures
        ({
            let sp = parse_config2(s@, i as int);
            match r {
                Option::Some((v, j)) => sp == Option::Some((v@, j as int)) && i < j <= s.len(),
                Option::None => sp is None,
            }
        }),
{
    if !(i < s.len() && s[i] == '{') {
        return Option::None;
    }
    let j = skip_ws_exec(s, i + 1);
    if j < s.len() && s[j] == '}' {
        Option::None
    } else {
        parse_rfields_exec(s, j, Option::None, Option::None)
    }
}

} // verus!

verus! {

/// Any tag set the parser builds from a sorted accumulator is sorted.
pub proof fn lemma_titems2_sorted(s: Seq<char>, i: int, acc: Seq<Seq<char>>)
    requires
        crate::config::sorted_names(acc),
    ensures
        match parse_titems2(s, i, acc) {
            Option::None => true,
            Option::Some((ts, _)) => crate::config::sorted_names(ts),
        },
    decreases s.len() - i,
{
    if 0 <= i < s.len() {
        match parse_qstr(s, i) {
            Option::None => {
            },
            Option::Some((t, j1)) => {
                crate::config::lemma_sinsert_sorted(acc, t);
                let j2 = skip_ws(s, j1);
                if 0 <= j2 < s.len() && s[j2] == ',' {
                    let j3 = skip_ws(s, j2 + 1);
                    if step_to(s, i, j3) > i {
                        lemma_titems2_sorted(s, step_to(s, i, j3), sinsert(acc, t));
                    }
                }
            },
        }
    }
}

/// Any tag set a project record's parse yields is sorted.
#[verifier::rlimit(100)]
#[verifier::spinoff_prover]
pub proof fn lemma_pfields_tags_sorted(
    s: Seq<char>,
    i: int,
    nm: Option<Seq<char>>,
    gt: Option<Seq<char>>,
    ac: Option<Option<Seq<char>>>,
    aw: Option<Option<Seq<char>>>,
    tg: Option<Seq<Seq<char>>>,
)
    requires
        match tg {
            Option::None => true,
            Option::Some(ts) => crate::config::sorted_names(ts),
        },
    ensures
        match parse_pfields(s, i, nm, gt, ac, aw, tg) {
            Option::None => true,
            Option::Some((pv, _)) => crate::config::sorted_names(pv.tags),
        },
    decreases s.len() - i,
{
    reveal_strlit("name");
    reveal_strlit("git");
    reveal_strlit("after_clone");
    reveal_strlit("after_workon");
    reveal_strlit("tags");
    if 0 <= i < s.len() {
        match parse_qstr(s, i) {
            Option::None => {
            },
            Option::Some((key, j1)) => {
                let j2 = skip_ws(s, j1);
                if 0 <= j2 < s.len() && s[j2] == ':' {
                    let j3 = skip_ws(s, j2 + 1);
                    if key == "name"@ {
                        if nm is None {
                            match parse_qstr(s, j3) {
                                Option::None => {
                                },
                                Option::Some((v, j4)) => {
                                    assert(parse_pfields(s, i, nm, gt, ac, aw, tg)
                                        == parse_pafter(s, i, Option::Some(v), gt, ac, aw, tg, j4));
                                    lemma_pafter_tags_sorted(s, i, Option::Some(v), gt, ac, aw, tg, j4);
                                },
                            }
                        }
                    } else if key == "git"@ {
                        if gt is None {
                            match parse_qstr(s, j3) {
                                Option::None => {
                                },
                                Option::Some((v, j4)) => {
                                    assert(parse_pfields(s, i, nm, gt, ac, aw, tg)
                                        == parse_pafter(s, i, nm, Option::Some(v), ac, aw, tg, j4));
                                    lemma_pafter_tags_sorted(s, i, nm, Option::Some(v), ac, aw, tg, j4);
                                },
                            }
                        }
                    } else if key == "after_clone"@ {
                        if ac is None {
                            match parse_opt_str(s, j3) {
                                Option::None => {
                                },
                                Option::Some((v, j4)) => {
                                    assert(parse_pfields(s, i, nm, gt, ac, aw, tg)
                                        == parse_pafter(s, i, nm, gt, Option::Some(v), aw, tg, j4));
                                    lemma_pafter_tags_sorted(s, i, nm, gt, Option::Some(v), aw, tg, j4);
                                },
                            }
                        }
                    } else if key == "after_workon"@ {
                        if aw is None {
                            match parse_opt_str(s, j3) {
                                Option::None => {
                                },
                                Option::Some((v, j4)) => {
                                    assert(parse_pfields(s, i, nm, gt, ac, aw, tg)
                                        == parse_pafter(s, i, nm, gt, ac, Option::Some(v), tg, j4));
                                    lemma_pafter_tags_sorted(s, i, nm, gt, ac, Option::Some(v), tg, j4);
                                },
                            }
                        }
                    } else if key == "tags"@ {
                        if tg is None {
                            match parse_tags2(s, j3) {
                                Option::None => {
                                },
                                Option::Some((v, j4)) => {
                                    assert(crate::config::sorted_names(v)) by {
                                        if 0 <= j3 < s.len() && s[j3] == '[' {
                                            let jj = skip_ws(s, j3 + 1);
                                            if !(0 <= jj < s.len() && s[jj] == ']') {
                                                lemma_titems2_sorted(s, jj, Seq::empty());
                                            }
                                        }
                                    }
                                    assert(parse_pfields(s, i, nm, gt, ac, aw, tg)
                                        == parse_pafter(s, i, nm, gt, ac, aw, Option::Some(v), j4));
                                    lemma_pafter_tags_sorted(s, i, nm, gt, ac, aw, Option::Some(v), j4);
                                },
                            }
                        }
                    }
                }
            },
        }
    }
}

/// The continuation step of the lemma above.
pub proof fn lemma_pafter_tags_sorted(
    s: Seq<char>,
    i: int,
    nm: Option<Seq<char>>,
    gt: Option<Seq<char>>,
    ac: Option<Option<Seq<char>>>,
    aw: Option<Option<Seq<char>>>,
    tg: Option<Seq<Seq<char>>>,
    j: int,
)
    requires
        match tg {
            Option::None => true,
            Option::Some(ts) => crate::config::sorted_names(ts),
        },
    ensures
        match parse_pafter(s, i, nm, gt, ac, aw, tg, j) {
            Option::None => true,
            Option::Some((pv, _)) => crate::config::sorted_names(pv.tags),
        },
    decreases s.len() - i, 0int,
{
    let j5 = skip_ws(s, j);
    if 0 <= j5 < s.len() && s[j5] == ',' {
        let j6 = skip_ws(s, j5 + 1);
        if step_to(s, i, j6) > i {
            lemma_pfields_tags_sorted(s, step_to(s, i, j6), nm, gt, ac, aw, tg);
        }
    }
}

/// Any project record the parser accepts has a sorted tag set.
pub proof fn lemma_project2_tags_sorted(s: Seq<char>, i: int)
    ensures
        match parse_project2(s, i) {
            Option::None => true,
            Option::Some((pv, _)) => crate::config::sorted_names(pv.tags),
        },
{
    if 0 <= i < s.len() && s[i] == '{' {
        let j = skip_ws(s, i + 1);
        if !(0 <= j < s.len() && s[j] == '}') {
            lemma_pfields_tags_sorted(
                s, j, Option::None, Option::None, Option::None, Option::None, Option::None,
            );
        }
    }
}

/// Any project map the parser builds from a well-formed accumulator
/// has sorted keys and sorted tag sets.
pub proof fn lemma_pentries2_wf(s: Seq<char>, i: int, acc: Seq<(Seq<char>, crate::config::ProjectV)>)
    requires
        crate::config::sorted_keys(acc),
        forall|n: int|
            0 <= n < acc.len() ==> crate::config::sorted_names(#[trigger] acc[n].1.tags),
    ensures
        match parse_pentries2(s, i, acc) {
            Option::None => true,
            Option::Some((ps, _)) => crate::config::sorted_keys(ps) && (forall|n: int|
                0 <= n < ps.len() ==> crate::config::sorted_names(#[trigger] ps[n].1.tags)),
        },
    decreases s.len() - i,
{
    if 0 <= i < s.len() {
        match parse_qstr(s, i) {
            Option::None => {
            },
            Option::Some((k, j1)) => {
                let j2 = skip_ws(s, j1);
                if 0 <= j2 < s.len() && s[j2] == ':' {
                    let j3 = skip_ws(s, j2 + 1);
                    match parse_project2(s, j3) {
                        Option::None => {
                        },
                        Option::Some((pv, j4)) => {
                            lemma_project2_tags_sorted(s, j3);
                            let acc2 = ainsert(acc, k, pv);
                            crate::config::lemma_ainsert_sorted(acc, k, pv);
                            crate::config::lemma_ainsert_elements(acc, k, pv);
                            assert forall|n: int| 0 <= n < acc2.len() implies
                                crate::config::sorted_names(#[trigger] acc2[n].1.tags) by {
                                if acc2[n] != (k, pv) {
                                    let m = choose|m: int|
                                        0 <= m < acc.len() && acc[m] == acc2[n];
                                    assert(crate::config::sorted_names(acc[m].1.tags));
                                }
                            }
                            let j5 = skip_ws(s, j4);
                            if 0 <= j5 < s.len() && s[j5] == ',' {
                                let j6 = skip_ws(s, j5 + 1);
                                if step_to(s, i, j6) > i {
                                    lemma_pentries2_wf(s, step_to(s, i, j6), acc2);
                                }
                            }
                        },
                    }
                }
            },
        }
    }
}

/// Any catalog the parser builds from a sorted accumulator is sorted.
pub proof fn lemma_centries2_sorted(s: Seq<char>, i: int, acc: Seq<(Seq<char>, crate::config::TagV)>)
    requires
        crate::config::sorted_keys(acc),
    ensures
        match parse_centries2(s, i, acc) {
            Option::None => true,
            Option::Some((cat, _)) => crate::config::sorted_keys(cat),
        },
    decreases s.len() - i,
{
    if 0 <= i < s.len() {
        match parse_qstr(s, i) {
            Option::None => {
            },
            Option::Some((k, j1)) => {
                let j2 = skip_ws(s, j1);
                if 0 <= j2 < s.len() && s[j2] == ':' {
                    let j3 = skip_ws(s, j2 + 1);
                    match parse_tagv2(s, j3) {
                        Option::None => {
                        },
                        Option::Some((tv, j4)) => {
                            crate::config::lemma_ainsert_sorted(acc, k, tv);
                            let j5 = skip_ws(s, j4);
                            if 0 <= j5 < s.len() && s[j5] == ',' {
                                let j6 = skip_ws(s, j5 + 1);
                                if step_to(s, i, j6) > i {
                                    lemma_centries2_sorted(s, step_to(s, i, j6), ainsert(acc, k, tv));
                                }
                            }
                        },
                    }
                }
            },
        }
    }
}

/// Any catalog value the parser accepts is sorted.
pub proof fn lemma_opttags_sorted(s: Seq<char>, i: int)
    ensures
        match parse_opttags(s, i) {
            Option::None => true,
            Option::Some((o, _)) => match o {
                Option::None => true,
                Option::Some(cat) => crate::config::sorted_keys(cat),
            },
        },
{
    if 0 <= i < s.len() && s[i] == '{' {
        let j = skip_ws(s, i + 1);
        if !(0 <= j < s.len() && s[j] == '}') {
            lemma_centries2_sorted(s, j, Seq::empty());
        }
    }
}

/// Any settings record the parser accepts has a sorted catalog; the
/// slot premise carries that of what was already seen.
pub proof fn lemma_sfields_sorted(
    s: Seq<char>,
    i: int,
    ws: Option<Seq<char>>,
    tg: Option<Option<Seq<(Seq<char>, crate::config::TagV)>>>,
)
    requires
        match tg {
            Option::Some(Option::Some(cat)) => crate::config::sorted_keys(cat),
            _ => true,
        },
    ensures
        match parse_sfields(s, i, ws, tg) {
            Option::None => true,
            Option::Some((sv, _)) => match sv.tags {
                Option::None => true,
                Option::Some(cat) => crate::config::sorted_keys(cat),
            },
        },
    decreases s.len() - i,
{
    reveal_strlit("workspace");
    reveal_strlit("tags");
    if 0 <= i < s.len() {
        match parse_qstr(s, i) {
            Option::None => {
            },
            Option::Some((key, j1)) => {
                let j2 = skip_ws(s, j1);
                if 0 <= j2 < s.len() && s[j2] == ':' {
                    let j3 = skip_ws(s, j2 + 1);
                    if key == "workspace"@ && ws is None {
                        match parse_qstr(s, j3) {
                            Option::None => {
                            },
                            Option::Some((v, j4)) => {
                                lemma_safter_sorted(s, i, Option::Some(v), tg, j4);
                            },
                        }
                    } else if key == "tags"@ && tg is None {
                        match parse_opttags(s, j3) {
                            Option::None => {
                            },
                            Option::Some((v, j4)) => {
                                lemma_opttags_sorted(s, j3);
                                lemma_safter_sorted(s, i, ws, Option::Some(v), j4);
                            },
                        }
                    }
                }
            },
        }
    }
}

/// The continuation step of the lemma above.
pub proof fn lemma_safter_sorted(
    s: Seq<char>,
    i: int,
    ws: Option<Seq<char>>,
    tg: Option<Option<Seq<(Seq<char>, crate::config::TagV)>>>,
    j: int,
)
    requires
        match tg {
            Option::Some(Option::Some(cat)) => crate::config::sorted_keys(cat),
            _ => true,
        },
    ensures
        match parse_safter(s, i, ws, tg, j) {
            Option::None => true,
            Option::Some((sv, _)) => match sv.tags {
                Option::None => true,
                Option::Some(cat) => crate::config::sorted_keys(cat),
            },
        },
    decreases s.len() - i, 0int,
{
    let j5 = skip_ws(s, j);
    if 0 <= j5 < s.len() && s[j5] == ',' {
        let j6 = skip_ws(s, j5 + 1);
        if step_to(s, i, j6) > i {
            lemma_sfields_sorted(s, step_to(s, i, j6), ws, tg);
        }
    }
}

/// Any registry the parser accepts is structurally well formed; the
/// slot premises carry what was already seen.
pub proof fn lemma_rfields_wf(
    s: Seq<char>,
    i: int,
    pj: Option<Seq<(Seq<char>, crate::config::ProjectV)>>,
    st: Option<crate::config::SettingsV>,
)
    requires
        match pj {
            Option::None => true,
            Option::Some(ps) => crate::config::sorted_keys(ps) && (forall|n: int|
                0 <= n < ps.len() ==> crate::config::sorted_names(#[trigger] ps[n].1.tags)),
        },
        match st {
            Option::None => true,
            Option::Some(sv) => match sv.tags {
                Option::None => true,
                Option::Some(cat) => crate::config::sorted_keys(cat),
            },
        },
    ensures
        match parse_rfields(s, i, pj, st) {
            Option::None => true,
            Option::Some((cv, _)) => cv.wf(),
        },
    decreases s.len() - i,
{
    reveal_strlit("projects");
    reveal_strlit("settings");
    if 0 <= i < s.len() {
        match parse_qstr(s, i) {
            Option::None => {
            },
            Option::Some((key, j1)) => {
                let j2 = skip_ws(s, j1);
                if 0 <= j2 < s.len() && s[j2] == ':' {
                    let j3 = skip_ws(s, j2 + 1);
                    if key == "projects"@ && pj is None {
                        match parse_pobj(s, j3) {
                            Option::None => {
                            },
                            Option::Some((v, j4)) => {
                                assert(crate::config::sorted_keys(v) && (forall|n: int|
                                    0 <= n < v.len() ==> crate::config::sorted_names(
                                        #[trigger] v[n].1.tags,
                                    ))) by {
                                    if 0 <= j3 < s.len() && s[j3] == '{' {
                                        let jj = skip_ws(s, j3 + 1);
                                        if !(0 <= jj < s.len() && s[jj] == '}') {
                                            lemma_pentries2_wf(s, jj, Seq::empty());
                                        }
                                    }
                                }
                                lemma_rafter_wf(s, i, Option::Some(v), st, j4);
                            },
                        }
                    } else if key == "settings"@ && st is None {
                        match parse_settings2(s, j3) {
                            Option::None => {
                            },
                            Option::Some((v, j4)) => {
                                assert(match v.tags {
                                    Option::None => true,
                                    Option::Some(cat) => crate::config::sorted_keys(cat),
                                }) by {
                                    if 0 <= j3 < s.len() && s[j3] == '{' {
                                        let jj = skip_ws(s, j3 + 1);
                                        if !(0 <= jj < s.len() && s[jj] == '}') {
                                            lemma_sfields_sorted(
                                                s, jj, Option::None, Option::None,
                                            );
                                        }
                                    }
                                }
                                lemma_rafter_wf(s, i, pj, Option::Some(v), j4);
                            },
                        }
                    }
                }
            },
        }
    }
}

/// The continuation step of the lemma above.
pub proof fn lemma_rafter_wf(
    s: Seq<char>,
    i: int,
    pj: Option<Seq<(Seq<char>, crate::config::ProjectV)>>,
    st: Option<crate::config::SettingsV>,
    j: int,
)
    requires
        match pj {
            Option::None => true,
            Option::Some(ps) => crate::config::sorted_keys(ps) && (forall|n: int|
                0 <= n < ps.len() ==> crate::config::sorted_names(#[trigger] ps[n].1.tags)),
        },
        match st {
            Option::None => true,
            Option::Some(sv) => match sv.tags {
                Option::None => true,
                Option::Some(cat) => crate::config::sorted_keys(cat),
            },
        },
    ensures
        match parse_rafter(s, i, pj, st, j) {
            Option::None => true,
            Option::Some((cv, _)) => cv.wf(),
        },
    decreases s.len() - i, 0int,
{
    let j5 = skip_ws(s, j);
    if 0 <= j5 < s.len() && s[j5] == ',' {
        let j6 = skip_ws(s, j5 + 1);
        if step_to(s, i, j6) > i {
            lemma_rfields_wf(s, step_to(s, i, j6), pj, st);
        }
    }
}

/// Any registry `decode` accepts is structurally well formed.
pub proof fn lemma_decode_wf(s: Seq<char>)
    ensures
        match decode_spec(s) {
            Option::None => true,
            Option::Some(c) => c.wf(),
        },
{
    let i = skip_ws(s, 0);
    if 0 <= i < s.len() && s[i] == '{' {
        let j = skip_ws(s, i + 1);
        if !(0 <= j < s.len() && s[j] == '}') {
            lemma_rfields_wf(s, j, Option::None, Option::None);
        }
    }
}

/// Parses a registry from any structurally valid document: whitespace
/// and field order are free, absent optional fields decode to no
/// value, map keys may come in any order (the last binding of a
/// repeated key wins), and an unknown field is rejected. Anything else
/// is a malformed document.
pub fn decode(input: &str) -> (r: Result<crate::config::Config, crate::errors::AppError>)
    ensures
        match r {
            Result::Ok(c) => decode_spec(input@) == Option::Some(c@) && c@.wf(),
            Result::Err(e) => decode_spec(input@) is None && e@ matches
                crate::errors::AppErrorV::BadJson(_),
        },
{
    let n = input.unicode_len();
    let mut chars: Vec<char> = Vec::new();
    let mut i: usize = 0;
    while i < n
        invariant
            i <= n,
            n == input@.len(),
            chars@ =~= input@.take(i as int),
        decreases n - i,
    {
        chars.push(input.get_char(i));
        proof {
            assert(chars@ =~= input@.take(i + 1));
        }
        i = i + 1;
    }
    proof {
        assert(chars@ =~= input@);
        lemma_decode_wf(input@);
    }
    let i0 = skip_ws_exec(&chars, 0);
    match parse_config2_exec(&chars, i0) {
        Option::Some((c, j)) => {
            if skip_ws_exec(&chars, j) == chars.len() {
                Result::Ok(c)
            } else {
                Result::Err(
                    crate::errors::AppError::BadJson(
                        String::from_str("trailing text after the registry document"),
                    ),
                )
            }
        },
        Option::None => Result::Err(
            crate::errors::AppError::BadJson(
                String::from_str("not a structurally valid registry document"),
            ),
        ),
    }
}

} // verus!

verus! {

/// Every character of a matched region equals the pattern's.
pub proof fn lemma_region_chars(s: Seq<char>, o: int, part: Seq<char>)
    requires
        0 <= o,
        o + part.len() <= s.len(),
        s.subrange(o, o + part.len()) == part,
    ensures
        forall|q: int| 0 <= q < part.len() ==> #[trigger] s[o + q] == part[q],
{
    assert forall|q: int| 0 <= q < part.len() implies #[trigger] s[o + q] == part[q] by {
        assert(s.subrange(o, o + part.len())[q] == part[q]);
    }
}

/// Skipping whitespace crosses exactly a run of whitespace.
pub proof fn lemma_skip_ws_run(s: Seq<char>, i: int, k: int)
    requires
        0 <= i,
        0 <= k,
        i + k <= s.len(),
        forall|q: int| 0 <= q < k ==> is_ws(#[trigger] s[i + q]),
        i + k == s.len() || !is_ws(s[i + k]),
    ensures
        skip_ws(s, i) == i + k,
    decreases k,
{
    if k > 0 {
        assert(is_ws(s[i + 0]));
        assert forall|q: int| 0 <= q < k - 1 implies is_ws(#[trigger] s[i + 1 + q]) by {
            assert(is_ws(s[i + (1 + q)]));
        }
        lemma_skip_ws_run(s, i + 1, k - 1);
    }
}

/// A string of ordinary characters escapes to itself.
pub proof fn lemma_esc_plain(v: Seq<char>)
    requires
        forall|q: int|
            0 <= q < v.len() ==> (#[trigger] v[q]) != '"' && v[q] != '\\' && (v[q] as u32) >= 32,
    ensures
        esc(v) == v,
    decreases v.len(),
{
    if v.len() > 0 {
        assert(v[0] != '"' && v[0] != '\\' && (v[0] as u32) >= 32);
        assert(esc_char(v[0]) == seq![v[0]]);
        assert forall|q: int|
            0 <= q < v.drop_first().len() implies (#[trigger] v.drop_first()[q]) != '"'
            && v.drop_first()[q] != '\\' && (v.drop_first()[q] as u32) >= 32 by {
            assert(v.drop_first()[q] == v[q + 1]);
        }
        lemma_esc_plain(v.drop_first());
        assert(esc(v) =~= v);
    }
}

/// Appending a name above every member of a sorted set is a push.
pub proof fn lemma_sinsert_append(sset: Seq<Seq<char>>, t: Seq<char>)
    requires
        crate::config::sorted_names(sset),
        forall|q: int| 0 <= q < sset.len() ==> lex_lt(#[trigger] sset[q], t),
    ensures
        sinsert(sset, t) == sset.push(t),
    decreases sset.len(),
{
    if sset.len() == 0 {
        assert(sinsert(sset, t) =~= sset.push(t));
    } else {
        crate::order::lex_lt_asymmetric(t, sset[0]);
        crate::order::lex_lt_irreflexive(sset[0]);
        assert(sset =~= seq![sset[0]] + sset.drop_first());
        crate::config::lemma_sorted_names_cons(sset[0], sset.drop_first());
        assert forall|q: int|
            0 <= q < sset.drop_first().len() implies lex_lt(
            #[trigger] sset.drop_first()[q],
            t,
        ) by {
            assert(sset.drop_first()[q] == sset[q + 1]);
        }
        lemma_sinsert_append(sset.drop_first(), t);
        assert(sinsert(sset, t) =~= sset.push(t));
    }
}

/// Appending a binding above every key of a sorted list is a push.
pub proof fn lemma_ainsert_append<V>(m: Seq<(Seq<char>, V)>, k: Seq<char>, v: V)
    requires
        crate::config::sorted_keys(m),
        forall|q: int| 0 <= q < m.len() ==> lex_lt((#[trigger] m[q]).0, k),
    ensures
        ainsert(m, k, v) == m.push((k, v)),
    decreases m.len(),
{
    if m.len() == 0 {
        assert(ainsert(m, k, v) =~= m.push((k, v)));
    } else {
        crate::order::lex_lt_asymmetric(k, m[0].0);
        crate::order::lex_lt_irreflexive(m[0].0);
        assert(m =~= seq![m[0]] + m.drop_first());
        crate::config::lemma_sorted_cons(m[0], m.drop_first());
        assert forall|q: int|
            0 <= q < m.drop_first().len() implies lex_lt((#[trigger] m.drop_first()[q]).0, k) by {
            assert(m.drop_first()[q] == m[q + 1]);
        }
        lemma_ainsert_append(m.drop_first(), k, v);
        assert(ainsert(m, k, v) =~= m.push((k, v)));
    }
}

/// Parsing the canonical items of a sorted tag array from item `m` on,
/// with the earlier items accumulated, yields the whole array and
/// stops after the closing bracket.
#[verifier::rlimit(100)]
#[verifier::spinoff_prover]
pub proof fn lemma_titems2_round(s: Seq<char>, i: int, ts: Seq<Seq<char>>, m: int)
    requires
        crate::config::sorted_names(ts),
        0 <= m < ts.len(),
        0 <= i,
        i + print_titems(ts.skip(m)).len() + 8 <= s.len(),
        s.subrange(i, i + print_titems(ts.skip(m)).len() + 8) == print_titems(ts.skip(m))
            + "\n      ]"@,
    ensures
        parse_titems2(s, i + 8, ts.take(m)) == Option::Some(
            (ts, i + print_titems(ts.skip(m)).len() + 8),
        ),
    decreases ts.len() - m,
{
    reveal_strlit("        ");
    reveal_strlit(",\n");
    reveal_strlit("\n      ]");
    let rest = ts.skip(m);
    assert(rest[0] == ts[m]);
    let ind = "        "@;
    let q0 = print_qstr(ts[m]);
    let close = "\n      ]"@;
    let whole = print_titems(rest) + close;
    lemma_region_chars(s, i, whole);
    assert(crate::config::sorted_names(ts.take(m))) by {
        assert(forall|a: int, b: int|
            0 <= a < b < m ==> ts.take(m)[a] == ts[a] && ts.take(m)[b] == ts[b]);
    }
    assert(forall|q: int| 0 <= q < m ==> lex_lt(#[trigger] ts.take(m)[q], ts[m])) by {
        assert(forall|q: int| 0 <= q < m ==> ts.take(m)[q] == ts[q]);
    }
    lemma_sinsert_append(ts.take(m), ts[m]);
    assert(ts.take(m).push(ts[m]) =~= ts.take(m + 1));
    if m == ts.len() - 1 {
        assert(print_titems(rest) =~= ind + q0);
        assert(whole =~= ind + q0 + close);
        lemma_split(s, i, ind + q0, close);
        lemma_split(s, i, ind, q0);
        lemma_qstr_round(s, i + 8, ts[m]);
        let j1 = i + 8 + q0.len() as int;
        lemma_region_chars(s, j1, close);
        assert forall|q: int| 0 <= q < 7 implies is_ws(#[trigger] s[j1 + q]) by {
            assert(s[j1 + q] == close[q]);
        }
        assert(!is_ws(s[j1 + 7])) by {
            assert(s[j1 + 7] == close[7]);
        }
        lemma_skip_ws_run(s, j1, 7);
        assert(s[j1 + 7] == ']');
        assert(ts.take(m + 1) =~= ts);
    } else {
        let rest2 = ts.skip(m + 1);
        assert(rest.drop_first() =~= rest2);
        assert(print_titems(rest) =~= ind + q0 + ",\n"@ + print_titems(rest2));
        assert(whole =~= ind + q0 + ",\n"@ + (print_titems(rest2) + close));
        lemma_split(s, i, ind + q0 + ",\n"@, print_titems(rest2) + close);
        lemma_split(s, i, ind + q0, ",\n"@);
        lemma_split(s, i, ind, q0);
        lemma_qstr_round(s, i + 8, ts[m]);
        let j1 = i + 8 + q0.len() as int;
        lemma_region_chars(s, j1, ",\n"@);
        assert(s[j1 + 0] == ',');
        assert(!is_ws(s[j1 + 0]));
        assert(skip_ws(s, j1) == j1);
        let i2 = j1 + 2;
        lemma_region_chars(s, i2, print_titems(rest2) + close);
        assert(print_titems(rest2)[0] == ind[0]) by {
            assert(print_titems(rest2) =~= ind + print_qstr(rest2[0]) + if rest2.len() == 1 {
                Seq::<char>::empty()
            } else {
                ",\n"@ + print_titems(rest2.drop_first())
            });
        }
        assert forall|q: int| 0 <= q < 9 implies is_ws(#[trigger] s[j1 + 1 + q]) by {
            if q == 0 {
                assert(s[j1 + 1] == ",\n"@[1]);
            } else {
                assert(s[i2 + (q - 1)] == (print_titems(rest2) + close)[q - 1]);
            }
        }
        assert(!is_ws(s[j1 + 1 + 9])) by {
            assert(s[i2 + 8] == (print_titems(rest2) + close)[8]);
            assert((print_titems(rest2) + close)[8] == print_qstr(rest2[0])[0]);
        }
        lemma_skip_ws_run(s, j1 + 1, 9);
        let j3 = j1 + 10;
        assert(j3 == i2 + 8);
        lemma_titems2_round(s, i2, ts, m + 1);
        assert(step_to(s, i + 8, j3) == j3);
    }
}

/// Parsing the canonical text of a sorted tag array yields it back.
pub proof fn lemma_tags2_round(s: Seq<char>, i: int, ts: Seq<Seq<char>>)
    requires
        crate::config::sorted_names(ts),
        0 <= i,
        i + print_tags(ts).len() <= s.len(),
        s.subrange(i, i + print_tags(ts).len()) == print_tags(ts),
    ensures
        parse_tags2(s, i) == Option::Some((ts, i + print_tags(ts).len())),
{
    reveal_strlit("[]");
    reveal_strlit("[\n");
    reveal_strlit("        ");
    reveal_strlit("\n      ]");
    if ts.len() == 0 {
        lemma_region_chars(s, i, "[]"@);
        assert(s[i + 0] == '[' && s[i + 1] == ']');
        assert(!is_ws(s[i + 1]));
        assert(skip_ws(s, i + 1) == i + 1);
        assert(Seq::<Seq<char>>::empty() =~= ts);
        assert(parse_tags2(s, i) == Option::Some((Seq::<Seq<char>>::empty(), i + 2)));
    } else {
        let whole = print_tags(ts);
        assert(whole =~= "[\n"@ + (print_titems(ts) + "\n      ]"@));
        lemma_split(s, i, "[\n"@, print_titems(ts) + "\n      ]"@);
        lemma_region_chars(s, i, whole);
        assert(s[i + 0] == '[');
        let i2 = i + 2;
        lemma_region_chars(s, i2, print_titems(ts) + "\n      ]"@);
        assert(print_titems(ts)[0] == "        "@[0]) by {
            assert(print_titems(ts) =~= "        "@ + print_qstr(ts[0]) + if ts.len() == 1 {
                Seq::<char>::empty()
            } else {
                ",\n"@ + print_titems(ts.drop_first())
            });
        }
        assert forall|q: int| 0 <= q < 9 implies is_ws(#[trigger] s[i + 1 + q]) by {
            if q == 0 {
                assert(s[i + 1] == whole[1]);
            } else {
                assert(s[i2 + (q - 1)] == (print_titems(ts) + "\n      ]"@)[q - 1]);
            }
        }
        assert(!is_ws(s[i + 1 + 9])) by {
            assert(s[i2 + 8] == (print_titems(ts) + "\n      ]"@)[8]);
            assert((print_titems(ts) + "\n      ]"@)[8] == print_qstr(ts[0])[0]);
        }
        lemma_skip_ws_run(s, i + 1, 9);
        let j = i + 10;
        assert(j == i2 + 8);
        assert(s[j] == '"') by {
            assert(s[i2 + 8] == (print_titems(ts) + "\n      ]"@)[8]);
        }
        assert(s[j] != ']');
        assert(ts.take(0) =~= Seq::<Seq<char>>::empty());
        assert(print_qstr(ts[0]).len() >= 2);
        assert(print_titems(ts).len() >= 8 + print_qstr(ts[0]).len());
        assert(j < s.len());
        assert(ts.skip(0) =~= ts);
        lemma_titems2_round(s, i2, ts, 0);
        assert(parse_titems2(s, j, ts.take(0)) == Option::Some(
            (ts, i2 + print_titems(ts).len() + 8),
        ));
        assert(parse_tags2(s, i) == parse_titems2(s, j, Seq::<Seq<char>>::empty()));
        assert(i2 + print_titems(ts).len() + 8 == i + whole.len());
    }
}

} // verus!

verus! {

} // verus!
