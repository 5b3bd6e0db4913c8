//! The container's two small JSON documents, written and read by
//! verified code. The writer renders the fixed schema pretty-printed
//! in one canonical layout; the reader accepts that schema with any
//! insignificant whitespace, any member order, and the standard
//! string escapes, as a general JSON deserializer would.

use crate::database::{DatabaseMetadata, DatabaseMetadataView, DatabaseSettings};
use crate::pattern::FileNamePattern;
use vstd::prelude::*;

verus! {

/// The decimal digit characters.
pub open spec fn digit_char(d: int) -> char {
    if d == 0 { '0' } else if d == 1 { '1' } else if d == 2 { '2' } else if d == 3 { '3' }
    else if d == 4 { '4' } else if d == 5 { '5' } else if d == 6 { '6' } else if d == 7 { '7' }
    else if d == 8 { '8' } else { '9' }
}

/// The value of a decimal digit character, or 10 for any other character.
pub open spec fn digit_val(c: char) -> int {
    if c == '0' { 0 } else if c == '1' { 1 } else if c == '2' { 2 } else if c == '3' { 3 }
    else if c == '4' { 4 } else if c == '5' { 5 } else if c == '6' { 6 } else if c == '7' { 7 }
    else if c == '8' { 8 } else if c == '9' { 9 } else { 10 }
}

pub open spec fn is_digit(c: char) -> bool {
    digit_val(c) < 10
}

/// The lower-case hexadecimal digit characters.
pub open spec fn hex_char(d: int) -> char {
    if d < 10 { digit_char(d) }
    else if d == 10 { 'a' } else if d == 11 { 'b' } else if d == 12 { 'c' }
    else if d == 13 { 'd' } else if d == 14 { 'e' } else { 'f' }
}

/// The value of a lower-case hexadecimal digit, or 16 otherwise.
pub open spec fn hex_val(c: char) -> int {
    if digit_val(c) < 10 { digit_val(c) }
    else if c == 'a' { 10 } else if c == 'b' { 11 } else if c == 'c' { 12 }
    else if c == 'd' { 13 } else if c == 'e' { 14 } else if c == 'f' { 15 } else { 16 }
}

/// The value of a hexadecimal digit of either case, or 16 otherwise.
pub open spec fn hex_digit_val(c: char) -> int {
    if hex_val(c) < 16 { hex_val(c) }
    else if c == 'A' { 10 } else if c == 'B' { 11 } else if c == 'C' { 12 }
    else if c == 'D' { 13 } else if c == 'E' { 14 } else if c == 'F' { 15 } else { 16 }
}

/// The decimal rendering of a natural number, most significant first.
pub open spec fn dec_digits(n: nat) -> Seq<char>
    decreases n,
{
    if n < 10 {
        seq![digit_char(n as int)]
    } else {
        dec_digits(n / 10).push(digit_char((n % 10) as int))
    }
}

/// The value of a digit string, most significant first.
pub open spec fn nat_of_digits(ds: Seq<char>) -> nat
    decreases ds.len(),
{
    if ds.len() == 0 {
        0
    } else {
        (nat_of_digits(ds.drop_last()) * 10 + digit_val(ds.last())) as nat
    }
}

/// The decimal rendering of an integer.
pub open spec fn int_str(v: int) -> Seq<char> {
    if v < 0 {
        seq!['-'] + dec_digits((-v) as nat)
    } else {
        dec_digits(v as nat)
    }
}

pub proof fn lemma_dec_digits_are_digits(n: nat)
    ensures
        dec_digits(n).len() >= 1,
        forall|i: int| 0 <= i < dec_digits(n).len() ==> is_digit(#[trigger] dec_digits(n)[i]),
    decreases n,
{
    if n < 10 {
    } else {
        lemma_dec_digits_are_digits(n / 10);
        assert forall|i: int| 0 <= i < dec_digits(n).len() implies is_digit(
            #[trigger] dec_digits(n)[i],
        ) by {
            if i < dec_digits(n).len() - 1 {
                assert(dec_digits(n)[i] == dec_digits(n / 10)[i]);
            }
        }
    }
}

/// Reading back the decimal rendering gives the number.
pub proof fn lemma_nat_of_dec_digits(n: nat)
    ensures
        nat_of_digits(dec_digits(n)) == n,
    decreases n,
{
    if n < 10 {
        assert(dec_digits(n) == seq![digit_char(n as int)]);
        assert(dec_digits(n).drop_last() =~= Seq::<char>::empty());
        assert(nat_of_digits(Seq::<char>::empty()) == 0);
    } else {
        lemma_nat_of_dec_digits(n / 10);
        let ds = dec_digits(n);
        assert(ds == dec_digits(n / 10).push(digit_char((n % 10) as int)));
        assert(ds.drop_last() =~= dec_digits(n / 10));
        assert(digit_val(ds.last()) == n % 10);
        vstd::arithmetic::div_mod::lemma_fundamental_div_mod(n as int, 10);
        assert(n == 10 * (n as int / 10) + (n as int % 10));
    }
}

/// How one character is written inside a JSON string.
pub open spec fn json_escape_char(c: char) -> Seq<char> {
    if c == '"' { seq!['\\', '"'] }
    else if c == '\\' { seq!['\\', '\\'] }
    else if c == '\u{8}' { seq!['\\', 'b'] }
    else if c == '\u{9}' { seq!['\\', 't'] }
    else if c == '\u{a}' { seq!['\\', 'n'] }
    else if c == '\u{c}' { seq!['\\', 'f'] }
    else if c == '\u{d}' { seq!['\\', 'r'] }
    else if (c as u32) < 32 {
        seq!['\\', 'u', '0', '0', hex_char((c as u32) as int / 16), hex_char((c as u32) as int % 16)]
    } else {
        seq![c]
    }
}

/// A character that is written as itself.
pub open spec fn is_plain_char(c: char) -> bool {
    c != '"' && c != '\\' && (c as u32) >= 32
}

/// The written form of a string's characters.
pub open spec fn json_escape(s: Seq<char>) -> Seq<char>
    decreases s.len(),
{
    if s.len() == 0 {
        Seq::<char>::empty()
    } else {
        json_escape_char(s[0]) + json_escape(s.drop_first())
    }
}

/// A complete JSON string token.
pub open spec fn json_string_of(s: Seq<char>) -> Seq<char> {
    seq!['"'] + json_escape(s) + seq!['"']
}

/// The meaning of a short escape character.
pub open spec fn unescape_short(e: char) -> Option<char> {
    if e == '"' { Some('"') }
    else if e == '\\' { Some('\\') }
    else if e == '/' { Some('/') }
    else if e == 'b' { Some('\u{8}') }
    else if e == 't' { Some('\u{9}') }
    else if e == 'n' { Some('\u{a}') }
    else if e == 'f' { Some('\u{c}') }
    else if e == 'r' { Some('\u{d}') }
    else { None }
}

/// Reads a string body up to its closing quote: the value and what
/// follows the quote.
pub open spec fn parse_str_body(input: Seq<char>) -> Option<(Seq<char>, Seq<char>)>
    decreases input.len(),
{
    if input.len() == 0 {
        None
    } else if input[0] == '"' {
        Some((Seq::<char>::empty(), input.skip(1)))
    } else if input[0] == '\\' {
        if input.len() < 2 {
            None
        } else if input[1] == 'u' {
            if input.len() < 6 {
                None
            } else {
                let code = hex_digit_val(input[2]) * 4096 + hex_digit_val(input[3]) * 256
                    + hex_digit_val(input[4]) * 16 + hex_digit_val(input[5]);
                if hex_digit_val(input[2]) < 16 && hex_digit_val(input[3]) < 16 && hex_digit_val(
                    input[4],
                ) < 16 && hex_digit_val(input[5]) < 16 && !(0xD800 <= code <= 0xDFFF) {
                    match parse_str_body(input.skip(6)) {
                        Some((s, r)) => Some((seq![((code as u32) as char)] + s, r)),
                        None => None,
                    }
                } else {
                    None
                }
            }
        } else {
            match unescape_short(input[1]) {
                Some(c) => match parse_str_body(input.skip(2)) {
                    Some((s, r)) => Some((seq![c] + s, r)),
                    None => None,
                },
                None => None,
            }
        }
    } else {
        match parse_str_body(input.skip(1)) {
            Some((s, r)) => Some((seq![input[0]] + s, r)),
            None => None,
        }
    }
}

/// Reads a complete JSON string token.
pub open spec fn parse_string_tok(input: Seq<char>) -> Option<(Seq<char>, Seq<char>)> {
    if input.len() >= 1 && input[0] == '"' {
        parse_str_body(input.skip(1))
    } else {
        None
    }
}

/// Reading back an escaped string yields the string, whatever follows.
pub proof fn lemma_parse_escape(s: Seq<char>, rest: Seq<char>)
    ensures
        parse_str_body(json_escape(s) + seq!['"'] + rest) == Some((s, rest)),
    decreases s.len(),
{
    let input = json_escape(s) + seq!['"'] + rest;
    if s.len() == 0 {
        assert(input =~= seq!['"'] + rest);
        assert(input[0] == '"');
        assert(input.skip(1) =~= rest);
    } else {
        let c = s[0];
        let tail = json_escape(s.drop_first()) + seq!['"'] + rest;
        lemma_parse_escape(s.drop_first(), rest);
        assert(input =~= json_escape_char(c) + tail);
        if c == '"' || c == '\\' {
            assert(input[0] == '\\');
            assert(input[1] != 'u');
            assert(unescape_short(input[1]) == Some(c));
            assert(input.skip(2) =~= tail);
            assert(seq![c] + s.drop_first() =~= s);
        } else if c == '\u{8}' || c == '\u{9}' || c == '\u{a}' || c == '\u{c}' || c == '\u{d}' {
            assert(input[0] == '\\');
            assert(input[1] != 'u');
            assert(unescape_short(input[1]) == Some(c));
            assert(input.skip(2) =~= tail);
            assert(seq![c] + s.drop_first() =~= s);
        } else if (c as u32) < 32 {
            let code = (c as u32) as int;
            assert(input[0] == '\\');
            assert(input[1] == 'u');
            assert(input[2] == '0');
            assert(input[3] == '0');
            assert(input[4] == hex_char(code / 16));
            assert(input[5] == hex_char(code % 16));
            assert(hex_digit_val('0') == 0);
            assert(hex_digit_val(hex_char(code / 16)) == code / 16);
            assert(hex_digit_val(hex_char(code % 16)) == code % 16);
            assert(hex_digit_val(input[2]) * 4096 + hex_digit_val(input[3]) * 256 + hex_digit_val(
                input[4],
            ) * 16 + hex_digit_val(input[5]) == code);
            assert(input.skip(6) =~= tail);
            vstd::utf8::char_u32_cast(c, c as u32);
            assert((((code) as u32) as char) == c);
            assert(seq![c] + s.drop_first() =~= s);
        } else {
            assert(is_plain_char(c));
            assert(input[0] == c);
            assert(input.skip(1) =~= tail);
            assert(seq![c] + s.drop_first() =~= s);
        }
    }
}

/// Consumes an expected literal prefix.
pub open spec fn expect_str(input: Seq<char>, lit: Seq<char>) -> Option<Seq<char>> {
    if input.len() >= lit.len() && input.take(lit.len() as int) == lit {
        Some(input.skip(lit.len() as int))
    } else {
        None
    }
}

pub proof fn lemma_expect(lit: Seq<char>, rest: Seq<char>)
    ensures
        expect_str(lit + rest, lit) == Some(rest),
{
    let input = lit + rest;
    assert(input.take(lit.len() as int) =~= lit);
    assert(input.skip(lit.len() as int) =~= rest);
}

/// How many leading characters are decimal digits.
pub open spec fn digits_prefix_len(input: Seq<char>) -> int
    decreases input.len(),
{
    if input.len() > 0 && is_digit(input[0]) {
        1 + digits_prefix_len(input.skip(1))
    } else {
        0
    }
}

/// Reads an optionally signed decimal integer whose magnitude stays
/// within the schema's small range.
pub open spec fn parse_int_tok(input: Seq<char>) -> Option<(int, Seq<char>)> {
    if input.len() >= 1 && input[0] == '-' {
        let k = digits_prefix_len(input.skip(1));
        if 1 <= k <= 5 {
            Some((-(nat_of_digits(input.skip(1).take(k)) as int), input.skip(1 + k)))
        } else {
            None
        }
    } else {
        let k = digits_prefix_len(input);
        if 1 <= k <= 5 {
            Some((nat_of_digits(input.take(k)) as int, input.skip(k)))
        } else {
            None
        }
    }
}

/// Powers of ten.
pub open spec fn pow10(k: nat) -> nat
    decreases k,
{
    if k == 0 {
        1
    } else {
        10 * pow10((k - 1) as nat)
    }
}

/// A number below the k-th power of ten renders in at most k digits.
pub proof fn lemma_dec_digits_len_le(n: nat, k: nat)
    requires
        k >= 1,
        n < pow10(k),
    ensures
        dec_digits(n).len() <= k,
    decreases k,
{
    if n < 10 {
    } else {
        assert(pow10(k) == 10 * pow10((k - 1) as nat));
        vstd::arithmetic::div_mod::lemma_fundamental_div_mod(n as int, 10);
        assert(10 * (n as int / 10) <= n);
        assert(n as int / 10 < pow10((k - 1) as nat));
        assert(k >= 2) by {
            if k == 1 {
                assert(pow10(0nat) == 1);
                assert(pow10(1nat) == 10);
            }
        }
        lemma_dec_digits_len_le(n / 10, (k - 1) as nat);
    }
}

/// The digit prefix of a rendering followed by a non-digit is the
/// rendering itself.
pub proof fn lemma_digits_prefix(ds: Seq<char>, rest: Seq<char>)
    requires
        forall|i: int| 0 <= i < ds.len() ==> is_digit(#[trigger] ds[i]),
        rest.len() == 0 || !is_digit(rest[0]),
    ensures
        digits_prefix_len(ds + rest) == ds.len(),
    decreases ds.len(),
{
    let input = ds + rest;
    if ds.len() == 0 {
        assert(input =~= rest);
    } else {
        assert(is_digit(input[0]));
        assert(input.skip(1) =~= ds.skip(1) + rest);
        assert(forall|i: int| 0 <= i < ds.skip(1).len() ==> is_digit(#[trigger] ds.skip(1)[i]));
        lemma_digits_prefix(ds.skip(1), rest);
    }
}

/// Reading back a rendered integer yields the integer, whatever
/// non-digit text follows.
pub proof fn lemma_parse_int(v: int, rest: Seq<char>)
    requires
        -99999 <= v <= 99999,
        true,
        rest.len() == 0 || !is_digit(rest[0]),
        rest.len() == 0 || rest[0] != '-',
    ensures
        parse_int_tok(int_str(v) + rest) == Some((v, rest)),
{
    if v < 0 {
        let n = (-v) as nat;
        let ds = dec_digits(n);
        lemma_dec_digits_are_digits(n);
        lemma_nat_of_dec_digits(n);
        assert(pow10(5nat) == 100000) by {
            assert(pow10(0nat) == 1);
            assert(pow10(1nat) == 10);
            assert(pow10(2nat) == 100);
            assert(pow10(3nat) == 1000);
            assert(pow10(4nat) == 10000);
        }
        lemma_dec_digits_len_le(n, 5);
        let input = int_str(v) + rest;
        assert(input =~= seq!['-'] + (ds + rest));
        assert(input[0] == '-');
        assert(input.skip(1) =~= ds + rest);
        lemma_digits_prefix(ds, rest);
        let k = ds.len() as int;
        assert((ds + rest).take(k) =~= ds);
        assert(input.skip(1 + k) =~= rest);
    } else {
        let n = v as nat;
        let ds = dec_digits(n);
        lemma_dec_digits_are_digits(n);
        lemma_nat_of_dec_digits(n);
        assert(pow10(5nat) == 100000) by {
            assert(pow10(0nat) == 1);
            assert(pow10(1nat) == 10);
            assert(pow10(2nat) == 100);
            assert(pow10(3nat) == 1000);
            assert(pow10(4nat) == 10000);
        }
        lemma_dec_digits_len_le(n, 5);
        let input = int_str(v) + rest;
        assert(input =~= ds + rest);
        assert(is_digit(input[0]));
        assert(input[0] != '-') by {
            assert(digit_val('-') == 10);
        }
        lemma_digits_prefix(ds, rest);
        let k = ds.len() as int;
        assert(input.take(k) =~= ds);
        assert(input.skip(k) =~= rest);
    }
}


/// JSON insignificant whitespace.
pub open spec fn is_json_ws(c: char) -> bool {
    c == ' ' || c == '\t' || c == '\n' || c == '\r'
}

/// The input with leading insignificant whitespace dropped.
pub open spec fn skip_ws(input: Seq<char>) -> Seq<char>
    decreases input.len(),
{
    if input.len() > 0 && is_json_ws(input[0]) {
        skip_ws(input.skip(1))
    } else {
        input
    }
}

/// Pins the whitespace skip by the index of the first significant
/// character.
pub proof fn lemma_skip_ws_at(s: Seq<char>, k: int)
    requires
        0 <= k <= s.len(),
        forall|j: int| 0 <= j < k ==> is_json_ws(s[j]),
        k < s.len() ==> !is_json_ws(s[k]),
    ensures
        skip_ws(s) =~= s.skip(k),
    decreases k,
{
    if k == 0 {
        if s.len() > 0 {
            assert(!is_json_ws(s[0]));
        }
        assert(s.skip(0) =~= s);
    } else {
        assert(is_json_ws(s[0]));
        let t = s.skip(1);
        assert(forall|j: int| 0 <= j < k - 1 ==> is_json_ws(t[j]));
        lemma_skip_ws_at(t, k - 1);
        assert(t.skip(k - 1) =~= s.skip(k));
    }
}

/// An all-whitespace prefix is skipped whole.
pub proof fn lemma_skip_ws_prefix(w: Seq<char>, t: Seq<char>)
    requires
        forall|j: int| 0 <= j < w.len() ==> is_json_ws(w[j]),
        t.len() > 0 ==> !is_json_ws(t[0]),
    ensures
        skip_ws(w + t) =~= t,
{
    let s = w + t;
    assert(forall|j: int| 0 <= j < w.len() ==> is_json_ws(s[j]));
    if t.len() > 0 {
        assert(s[w.len() as int] == t[0]);
    }
    lemma_skip_ws_at(s, w.len() as int);
    assert(s.skip(w.len() as int) =~= t);
}

/// Consumes an expected token after any whitespace.
pub open spec fn expect_tok(input: Seq<char>, lit: Seq<char>) -> Option<Seq<char>> {
    expect_str(skip_ws(input), lit)
}

/// Reads a string token after any whitespace.
pub open spec fn parse_string_ws(input: Seq<char>) -> Option<(Seq<char>, Seq<char>)> {
    parse_string_tok(skip_ws(input))
}

/// Reads an integer token after any whitespace.
pub open spec fn parse_int_ws(input: Seq<char>) -> Option<(int, Seq<char>)> {
    parse_int_tok(skip_ws(input))
}

/// Reads a string or the null token as an optional description.
pub open spec fn parse_desc(input: Seq<char>) -> Option<(Option<Seq<char>>, Seq<char>)> {
    if input.len() >= 1 && input[0] == '"' {
        match parse_string_tok(input) {
            Some((d, r)) => Some((Some(d), r)),
            None => None,
        }
    } else {
        match expect_str(input, "null"@) {
            Some(r) => Some((None, r)),
            None => None,
        }
    }
}

/// Reads an optional description after any whitespace.
pub open spec fn parse_desc_ws(input: Seq<char>) -> Option<(Option<Seq<char>>, Seq<char>)> {
    parse_desc(skip_ws(input))
}

/// The canonical rendering of the container's metadata document: the
/// layout the writer produces, token by token.
pub open spec fn meta_json(m: DatabaseMetadataView) -> Seq<char> {
    "{"@ + "\n  "@ + json_string_of("id"@) + ":"@ + " "@ + json_string_of(m.id) + ","@ + "\n  "@
        + json_string_of("name"@) + ":"@ + " "@ + json_string_of(m.name) + ","@ + "\n  "@
        + json_string_of("description"@) + ":"@ + " "@ + (match m.description {
        Some(d) => json_string_of(d),
        None => "null"@,
    }) + ","@ + "\n  "@ + json_string_of("version"@) + ":"@ + " "@ + int_str(m.version) + "\n"@
        + "}"@
}

/// The fields collected so far while reading the metadata members.
pub ghost struct MetaAcc {
    pub id: Option<Seq<char>>,
    pub name: Option<Seq<char>>,
    pub description: Option<Option<Seq<char>>>,
    pub version: Option<int>,
}

/// Reads one `"key": value` member and folds it into its slot. A key
/// outside the schema, a repeated key, or a value of the wrong shape
/// is an error, as the original deserializer had it.
#[verifier::opaque]
pub open spec fn parse_member(input: Seq<char>, acc: MetaAcc) -> Option<(MetaAcc, Seq<char>)> {
    match parse_string_ws(input) {
        None => None,
        Some((key, r1)) => match expect_tok(r1, ":"@) {
            None => None,
            Some(r2) => if key == "id"@ {
                if acc.id is None {
                    match parse_string_ws(r2) {
                        Some((v, r)) => Some(
                            (
                                MetaAcc {
                                    id: Some(v),
                                    name: acc.name,
                                    description: acc.description,
                                    version: acc.version,
                                },
                                r,
                            ),
                        ),
                        None => None,
                    }
                } else {
                    None
                }
            } else if key == "name"@ {
                if acc.name is None {
                    match parse_string_ws(r2) {
                        Some((v, r)) => Some(
                            (
                                MetaAcc {
                                    id: acc.id,
                                    name: Some(v),
                                    description: acc.description,
                                    version: acc.version,
                                },
                                r,
                            ),
                        ),
                        None => None,
                    }
                } else {
                    None
                }
            } else if key == "description"@ {
                if acc.description is None {
                    match parse_desc_ws(r2) {
                        Some((v, r)) => Some(
                            (
                                MetaAcc {
                                    id: acc.id,
                                    name: acc.name,
                                    description: Some(v),
                                    version: acc.version,
                                },
                                r,
                            ),
                        ),
                        None => None,
                    }
                } else {
                    None
                }
            } else if key == "version"@ {
                if acc.version is None {
                    match parse_int_ws(r2) {
                        Some((v, r)) => if -32768 <= v <= 32767 {
                            Some(
                                (
                                    MetaAcc {
                                        id: acc.id,
                                        name: acc.name,
                                        description: acc.description,
                                        version: Some(v),
                                    },
                                    r,
                                ),
                            )
                        } else {
                            None
                        },
                        None => None,
                    }
                } else {
                    None
                }
            } else {
                None
            },
        },
    }
}

/// Reads the whole metadata document: an object holding exactly the
/// four schema fields, each once, in any order, with any insignificant
/// whitespace between tokens.
pub open spec fn parse_meta_doc(input: Seq<char>) -> Option<DatabaseMetadataView> {
    let acc0 = MetaAcc { id: None, name: None, description: None, version: None };
    match expect_tok(input, "{"@) {
        None => None,
        Some(r0) => match parse_member(r0, acc0) {
            None => None,
            Some((a1, r1)) => match expect_tok(r1, ","@) {
                None => None,
                Some(r1b) => match parse_member(r1b, a1) {
                    None => None,
                    Some((a2, r2)) => match expect_tok(r2, ","@) {
                        None => None,
                        Some(r2b) => match parse_member(r2b, a2) {
                            None => None,
                            Some((a3, r3)) => match expect_tok(r3, ","@) {
                                None => None,
                                Some(r3b) => match parse_member(r3b, a3) {
                                    None => None,
                                    Some((a4, r4)) => match expect_tok(r4, "}"@) {
                                        None => None,
                                        Some(r5) => if skip_ws(r5).len() == 0 && a4.id is Some
                                            && a4.name is Some && a4.description is Some
                                            && a4.version is Some {
                                            Some(
                                                DatabaseMetadataView {
                                                    id: a4.id.unwrap(),
                                                    name: a4.name.unwrap(),
                                                    description: a4.description.unwrap(),
                                                    version: a4.version.unwrap(),
                                                },
                                            )
                                        } else {
                                            None
                                        },
                                    },
                                },
                            },
                        },
                    },
                },
            },
        },
    }
}

/// The canonical rendering of a settings document whose pattern
/// carries a separator.
pub open spec fn settings_obj_json(vname: Seq<char>, separator: char) -> Seq<char> {
    "{"@ + "\n  "@ + json_string_of("file_name_pattern"@) + ":"@ + " "@ + "{"@ + "\n    "@
        + json_string_of(vname) + ":"@ + " "@ + "{"@ + "\n      "@ + json_string_of(
        "separator"@,
    ) + ":"@ + " "@ + json_string_of(seq![separator]) + "\n    "@ + "}"@ + "\n  "@ + "}"@
        + "\n"@ + "}"@
}

/// The canonical rendering of the settings document.
pub open spec fn settings_json(s: DatabaseSettings) -> Seq<char> {
    match s.file_name_pattern {
        FileNamePattern::StudentTask { separator } => settings_obj_json("StudentTask"@, separator),
        FileNamePattern::TaskStudent { separator } => settings_obj_json("TaskStudent"@, separator),
        FileNamePattern::StudentOnly => "{"@ + "\n  "@ + json_string_of("file_name_pattern"@)
            + ":"@ + " "@ + json_string_of("StudentOnly"@) + "\n"@ + "}"@,
    }
}

/// Reads the whole settings document: the one schema field, holding
/// either the bare student-only tag or a variant object with its
/// single-character separator, with any insignificant whitespace
/// between tokens.
pub open spec fn parse_settings_doc(input: Seq<char>) -> Option<DatabaseSettings> {
    match expect_tok(input, "{"@) {
        None => None,
        Some(r0) => match parse_string_ws(r0) {
            None => None,
            Some((key, r1)) => if key != "file_name_pattern"@ {
                None
            } else {
                match expect_tok(r1, ":"@) {
                    None => None,
                    Some(r2) => {
                        let v = skip_ws(r2);
                        if v.len() >= 1 && v[0] == '"' {
                            match parse_string_tok(v) {
                                None => None,
                                Some((name, r3)) => if name == "StudentOnly"@ {
                                    match expect_tok(r3, "}"@) {
                                        None => None,
                                        Some(r4) => if skip_ws(r4).len() == 0 {
                                            Some(
                                                DatabaseSettings {
                                                    file_name_pattern: FileNamePattern::StudentOnly,
                                                },
                                            )
                                        } else {
                                            None
                                        },
                                    }
                                } else {
                                    None
                                },
                            }
                        } else {
                            match expect_str(v, "{"@) {
                                None => None,
                                Some(r3) => match parse_string_ws(r3) {
                                    None => None,
                                    Some((vname, r4)) => match expect_tok(r4, ":"@) {
                                        None => None,
                                        Some(r5) => match expect_tok(r5, "{"@) {
                                            None => None,
                                            Some(r6) => match parse_string_ws(r6) {
                                                None => None,
                                                Some((skey, r7)) => if skey != "separator"@ {
                                                    None
                                                } else {
                                                    match expect_tok(r7, ":"@) {
                                                        None => None,
                                                        Some(r8) => match parse_string_ws(r8) {
                                                            None => None,
                                                            Some((sep, r9)) => if sep.len() != 1 {
                                                                None
                                                            } else {
                                                                parse_settings_close(
                                                                    vname,
                                                                    sep[0],
                                                                    r9,
                                                                )
                                                            },
                                                        },
                                                    }
                                                },
                                            },
                                        },
                                    },
                                },
                            }
                        }
                    },
                }
            },
        },
    }
}

/// Reads the three closing braces of a variant-object settings
/// document and picks the variant.
pub open spec fn parse_settings_close(vname: Seq<char>, separator: char, input: Seq<char>) -> Option<
    DatabaseSettings,
> {
    match expect_tok(input, "}"@) {
        None => None,
        Some(r10) => match expect_tok(r10, "}"@) {
            None => None,
            Some(r11) => match expect_tok(r11, "}"@) {
                None => None,
                Some(r12) => if skip_ws(r12).len() == 0 {
                    if vname == "StudentTask"@ {
                        Some(
                            DatabaseSettings {
                                file_name_pattern: FileNamePattern::StudentTask { separator },
                            },
                        )
                    } else if vname == "TaskStudent"@ {
                        Some(
                            DatabaseSettings {
                                file_name_pattern: FileNamePattern::TaskStudent { separator },
                            },
                        )
                    } else {
                        None
                    }
                } else {
                    None
                },
            },
        },
    }
}

/// Reading back a complete string token yields the string and the rest.
pub proof fn lemma_parse_string_tok(s: Seq<char>, rest: Seq<char>)
    ensures
        parse_string_tok(json_string_of(s) + rest) == Some((s, rest)),
{
    let input = json_string_of(s) + rest;
    assert(input =~= seq!['"'] + (json_escape(s) + seq!['"'] + rest));
    assert(input[0] == '"');
    assert(input.skip(1) =~= json_escape(s) + seq!['"'] + rest);
    lemma_parse_escape(s, rest);
}

/// The characters of the canonical layout's fixed tokens.
proof fn proof_token_literals()
    ensures
        "{"@.len() == 1 && "{"@[0] == '{',
        "}"@.len() == 1 && "}"@[0] == '}',
        ":"@.len() == 1 && ":"@[0] == ':',
        ","@.len() == 1 && ","@[0] == ',',
        " "@.len() == 1 && is_json_ws(" "@[0]),
        "\n"@.len() == 1 && is_json_ws("\n"@[0]),
        forall|j: int| 0 <= j < "\n  "@.len() ==> is_json_ws(#[trigger] "\n  "@[j]),
        "\n  "@.len() == 3,
        forall|j: int| 0 <= j < "\n    "@.len() ==> is_json_ws(#[trigger] "\n    "@[j]),
        "\n    "@.len() == 5,
        forall|j: int| 0 <= j < "\n      "@.len() ==> is_json_ws(#[trigger] "\n      "@[j]),
        "\n      "@.len() == 7,
        "null"@.len() == 4 && "null"@[0] == 'n',
{
    reveal_strlit("{");
    reveal_strlit("}");
    reveal_strlit(":");
    reveal_strlit(",");
    reveal_strlit(" ");
    reveal_strlit("\n");
    reveal_strlit("\n  ");
    reveal_strlit("\n    ");
    reveal_strlit("\n      ");
    reveal_strlit("null");
}

/// The four schema keys differ pairwise.
proof fn proof_meta_keys_differ()
    ensures
        "id"@.len() == 2,
        "name"@.len() == 4,
        "description"@.len() == 11,
        "version"@.len() == 7,
        "id"@ != "name"@ && "id"@ != "description"@ && "id"@ != "version"@,
        "name"@ != "description"@ && "name"@ != "version"@,
        "description"@ != "version"@,
{
    reveal_strlit("id");
    reveal_strlit("name");
    reveal_strlit("description");
    reveal_strlit("version");
    assert("id"@.len() == 2);
    assert("name"@.len() == 4);
    assert("description"@.len() == 11);
    assert("version"@.len() == 7);
    assert("id"@ != "name"@) by {
        assert("id"@.len() != "name"@.len());
    }
    assert("id"@ != "description"@) by {
        assert("id"@.len() != "description"@.len());
    }
    assert("id"@ != "version"@) by {
        assert("id"@.len() != "version"@.len());
    }
    assert("name"@ != "description"@) by {
        assert("name"@.len() != "description"@.len());
    }
    assert("name"@ != "version"@) by {
        assert("name"@.len() != "version"@.len());
    }
    assert("description"@ != "version"@) by {
        assert("description"@.len() != "version"@.len());
    }
}

/// Reading a canonical `"key": ` prefix yields the key and stops
/// before the value.
proof fn lemma_parse_key_colon(w: Seq<char>, key: Seq<char>, tail: Seq<char>)
    requires
        forall|j: int| 0 <= j < w.len() ==> is_json_ws(w[j]),
    ensures
        parse_string_ws(w + json_string_of(key) + ":"@ + " "@ + tail) == Some(
            (key, ":"@ + " "@ + tail),
        ),
        expect_tok(":"@ + " "@ + tail, ":"@) == Some(" "@ + tail),
{
    proof_token_literals();
    let region = w + json_string_of(key) + ":"@ + " "@ + tail;
    let after_key = ":"@ + " "@ + tail;
    assert(region =~= w + (json_string_of(key) + after_key));
    assert((json_string_of(key) + after_key)[0] == '"');
    lemma_skip_ws_prefix(w, json_string_of(key) + after_key);
    lemma_parse_string_tok(key, after_key);
    assert(after_key[0] == ':');
    assert(skip_ws(after_key) =~= after_key);
    assert(after_key.take(1) =~= ":"@);
    assert(after_key.skip(1) =~= " "@ + tail);
}

/// A canonical string value after its single space.
proof fn lemma_value_string(value: Seq<char>, rest: Seq<char>)
    ensures
        parse_string_ws(" "@ + (json_string_of(value) + rest)) == Some((value, rest)),
{
    proof_token_literals();
    assert((json_string_of(value) + rest)[0] == '"');
    lemma_skip_ws_prefix(" "@, json_string_of(value) + rest);
    lemma_parse_string_tok(value, rest);
}

/// A canonical description value: a string or the null token.
proof fn lemma_value_desc(d: Option<Seq<char>>, rest: Seq<char>)
    ensures
        parse_desc_ws(" "@ + ((match d {
            Some(v) => json_string_of(v),
            None => "null"@,
        }) + rest)) == Some((d, rest)),
{
    proof_token_literals();
    match d {
        Some(v) => {
            assert((json_string_of(v) + rest)[0] == '"');
            lemma_skip_ws_prefix(" "@, json_string_of(v) + rest);
            lemma_parse_string_tok(v, rest);
        },
        None => {
            assert(("null"@ + rest)[0] == 'n');
            assert(("null"@ + rest)[0] != '"');
            lemma_skip_ws_prefix(" "@, "null"@ + rest);
            lemma_expect("null"@, rest);
        },
    }
}

/// A canonical integer value after its single space.
proof fn lemma_value_int(v: int, rest: Seq<char>)
    requires
        -99999 <= v <= 99999,
        rest.len() > 0,
        !is_digit(rest[0]),
        rest[0] != '-',
    ensures
        parse_int_ws(" "@ + (int_str(v) + rest)) == Some((v, rest)),
{
    proof_token_literals();
    assert(!is_json_ws((int_str(v) + rest)[0])) by {
        if v < 0 {
            assert(int_str(v)[0] == '-');
        } else {
            lemma_dec_digits_are_digits(v as nat);
            assert(is_digit(int_str(v)[0]));
        }
    }
    lemma_skip_ws_prefix(" "@, int_str(v) + rest);
    lemma_parse_int(v, rest);
}

/// Reading back a rendered metadata document yields the metadata.
#[verifier::rlimit(100)]
#[verifier::spinoff_prover]
pub proof fn lemma_parse_meta_doc(m: DatabaseMetadataView)
    requires
        -32768 <= m.version <= 32767,
    ensures
        parse_meta_doc(meta_json(m)) == Some(m),
{
    proof_token_literals();
    proof_meta_keys_differ();
    let acc0 = MetaAcc { id: None, name: None, description: None, version: None };
    let a1 = MetaAcc { id: Some(m.id), name: None, description: None, version: None };
    let a2 = MetaAcc { id: Some(m.id), name: Some(m.name), description: None, version: None };
    let a3 = MetaAcc {
        id: Some(m.id),
        name: Some(m.name),
        description: Some(m.description),
        version: None,
    };
    let a4 = MetaAcc {
        id: Some(m.id),
        name: Some(m.name),
        description: Some(m.description),
        version: Some(m.version),
    };
    let t_desc: Seq<char> = match m.description {
        Some(d) => json_string_of(d),
        None => "null"@,
    };
    let m4 = "\n  "@ + json_string_of("version"@) + ":"@ + " "@ + int_str(m.version);
    let m3 = "\n  "@ + json_string_of("description"@) + ":"@ + " "@ + t_desc;
    let m2 = "\n  "@ + json_string_of("name"@) + ":"@ + " "@ + json_string_of(m.name);
    let m1 = "\n  "@ + json_string_of("id"@) + ":"@ + " "@ + json_string_of(m.id);
    let tail_end = "\n"@ + "}"@;
    let input = meta_json(m);
    let r0 = m1 + ","@ + m2 + ","@ + m3 + ","@ + m4 + tail_end;
    let rest1 = ","@ + m2 + ","@ + m3 + ","@ + m4 + tail_end;
    let r1b = m2 + ","@ + m3 + ","@ + m4 + tail_end;
    let rest2 = ","@ + m3 + ","@ + m4 + tail_end;
    let r2b = m3 + ","@ + m4 + tail_end;
    let rest3 = ","@ + m4 + tail_end;
    let r3b = m4 + tail_end;
    assert(expect_tok(input, "{"@) == Some(r0)) by {
        assert(input =~= "{"@ + r0);
        assert(!is_json_ws(input[0]));
        assert(skip_ws(input) =~= input);
        assert(input.take(1) =~= "{"@);
        assert(input.skip(1) =~= r0);
    }
    assert(parse_member(r0, acc0) == Some((a1, rest1))) by {
        reveal(parse_member);
        assert(r0 =~= "\n  "@ + json_string_of("id"@) + ":"@ + " "@ + (json_string_of(m.id)
            + rest1));
        lemma_parse_key_colon("\n  "@, "id"@, json_string_of(m.id) + rest1);
        lemma_value_string(m.id, rest1);
    }
    assert(expect_tok(rest1, ","@) == Some(r1b)) by {
        assert(rest1 =~= ","@ + r1b);
        assert(!is_json_ws(rest1[0]));
        assert(skip_ws(rest1) =~= rest1);
        assert(rest1.take(1) =~= ","@);
        assert(rest1.skip(1) =~= r1b);
    }
    assert(parse_member(r1b, a1) == Some((a2, rest2))) by {
        reveal(parse_member);
        assert(r1b =~= "\n  "@ + json_string_of("name"@) + ":"@ + " "@ + (json_string_of(m.name)
            + rest2));
        lemma_parse_key_colon("\n  "@, "name"@, json_string_of(m.name) + rest2);
        lemma_value_string(m.name, rest2);
    }
    assert(expect_tok(rest2, ","@) == Some(r2b)) by {
        assert(rest2 =~= ","@ + r2b);
        assert(!is_json_ws(rest2[0]));
        assert(skip_ws(rest2) =~= rest2);
        assert(rest2.take(1) =~= ","@);
        assert(rest2.skip(1) =~= r2b);
    }
    assert(parse_member(r2b, a2) == Some((a3, rest3))) by {
        reveal(parse_member);
        assert(r2b =~= "\n  "@ + json_string_of("description"@) + ":"@ + " "@ + (t_desc
            + rest3));
        lemma_parse_key_colon("\n  "@, "description"@, t_desc + rest3);
        lemma_value_desc(m.description, rest3);
    }
    assert(expect_tok(rest3, ","@) == Some(r3b)) by {
        assert(rest3 =~= ","@ + r3b);
        assert(!is_json_ws(rest3[0]));
        assert(skip_ws(rest3) =~= rest3);
        assert(rest3.take(1) =~= ","@);
        assert(rest3.skip(1) =~= r3b);
    }
    assert(parse_member(r3b, a3) == Some((a4, tail_end))) by {
        reveal(parse_member);
        assert(r3b =~= "\n  "@ + json_string_of("version"@) + ":"@ + " "@ + (int_str(m.version)
            + tail_end));
        lemma_parse_key_colon("\n  "@, "version"@, int_str(m.version) + tail_end);
        assert(tail_end[0] == "\n"@[0]);
        assert(is_json_ws(tail_end[0]));
        assert(!is_digit(tail_end[0]) && tail_end[0] != '-');
        lemma_value_int(m.version, tail_end);
    }
    assert(expect_tok(tail_end, "}"@) == Some(Seq::<char>::empty())) by {
        lemma_skip_ws_prefix("\n"@, "}"@);
        assert("}"@.take(1) =~= "}"@);
        assert("}"@.skip(1) =~= Seq::<char>::empty());
    }
    assert(skip_ws(Seq::<char>::empty()).len() == 0);
    assert(a4.id.unwrap() == m.id && a4.name.unwrap() == m.name && a4.description.unwrap()
        == m.description && a4.version.unwrap() == m.version);
}

/// Reading back the closing of a rendered variant object picks the
/// variant.
proof fn lemma_settings_close(vname: Seq<char>, separator: char)
    ensures
        parse_settings_close(vname, separator, "\n    "@ + "}"@ + "\n  "@ + "}"@ + "\n"@ + "}"@)
            == (if vname == "StudentTask"@ {
            Some(
                DatabaseSettings { file_name_pattern: FileNamePattern::StudentTask { separator } },
            )
        } else if vname == "TaskStudent"@ {
            Some(
                DatabaseSettings { file_name_pattern: FileNamePattern::TaskStudent { separator } },
            )
        } else {
            None
        }),
{
    proof_token_literals();
    let input = "\n    "@ + "}"@ + "\n  "@ + "}"@ + "\n"@ + "}"@;
    let t1 = "}"@ + "\n  "@ + "}"@ + "\n"@ + "}"@;
    assert(input =~= "\n    "@ + t1);
    assert(!is_json_ws(t1[0]));
    lemma_skip_ws_prefix("\n    "@, t1);
    assert(t1.take(1) =~= "}"@);
    let t2 = "\n  "@ + "}"@ + "\n"@ + "}"@;
    assert(t1.skip(1) =~= t2);
    let t3 = "}"@ + "\n"@ + "}"@;
    assert(t2 =~= "\n  "@ + t3);
    assert(!is_json_ws(t3[0]));
    lemma_skip_ws_prefix("\n  "@, t3);
    assert(t3.take(1) =~= "}"@);
    let t4 = "\n"@ + "}"@;
    assert(t3.skip(1) =~= t4);
    lemma_skip_ws_prefix("\n"@, "}"@);
    assert("}"@.take(1) =~= "}"@);
    assert("}"@.skip(1) =~= Seq::<char>::empty());
    assert(skip_ws(Seq::<char>::empty()).len() == 0);
}

/// Reading back a rendered settings document yields the settings.
#[verifier::rlimit(100)]
#[verifier::spinoff_prover]
proof fn lemma_parse_settings_obj(vname: Seq<char>, separator: char)
    requires
        vname != "file_name_pattern"@,
    ensures
        parse_settings_doc(settings_obj_json(vname, separator)) == (if vname == "StudentTask"@ {
            Some(
                DatabaseSettings { file_name_pattern: FileNamePattern::StudentTask { separator } },
            )
        } else if vname == "TaskStudent"@ {
            Some(
                DatabaseSettings { file_name_pattern: FileNamePattern::TaskStudent { separator } },
            )
        } else {
            None
        }),
{
    proof_token_literals();
    let l_close = "\n    "@ + "}"@ + "\n  "@ + "}"@ + "\n"@ + "}"@;
    let inner = "{"@ + "\n      "@ + json_string_of("separator"@) + ":"@ + " "@ + json_string_of(
        seq![separator],
    ) + l_close;
    let outer = "{"@ + "\n    "@ + json_string_of(vname) + ":"@ + " "@ + inner;
    let input = settings_obj_json(vname, separator);
    let r0 = "\n  "@ + json_string_of("file_name_pattern"@) + ":"@ + " "@ + outer;
    assert(input =~= "{"@ + r0);
    assert(!is_json_ws(input[0]));
    assert(skip_ws(input) =~= input);
    assert(input.take(1) =~= "{"@);
    assert(input.skip(1) =~= r0);
    assert(r0 =~= "\n  "@ + json_string_of("file_name_pattern"@) + ":"@ + " "@ + outer);
    lemma_parse_key_colon("\n  "@, "file_name_pattern"@, outer);
    // the value opens an object, not a string
    assert(" "@ + outer =~= " "@ + outer);
    assert(!is_json_ws(outer[0]));
    lemma_skip_ws_prefix(" "@, outer);
    assert(outer[0] == '{');
    assert(outer.take(1) =~= "{"@);
    let r3 = "\n    "@ + json_string_of(vname) + ":"@ + " "@ + inner;
    assert(outer.skip(1) =~= r3);
    assert(r3 =~= "\n    "@ + json_string_of(vname) + ":"@ + " "@ + inner);
    lemma_parse_key_colon("\n    "@, vname, inner);
    assert(!is_json_ws(inner[0]));
    lemma_skip_ws_prefix(" "@, inner);
    assert(inner.take(1) =~= "{"@);
    let r6 = "\n      "@ + json_string_of("separator"@) + ":"@ + " "@ + (json_string_of(
        seq![separator],
    ) + l_close);
    assert(inner.skip(1) =~= r6);
    lemma_parse_key_colon("\n      "@, "separator"@, json_string_of(seq![separator]) + l_close);
    lemma_value_string(seq![separator], l_close);
    proof_fnp_keys_differ();
    lemma_settings_close(vname, separator);
}

/// The settings field name differs from the inner separator key.
proof fn proof_fnp_keys_differ()
    ensures
        "file_name_pattern"@.len() == 17,
        "separator"@.len() == 9,
        "separator"@ != "file_name_pattern"@,
{
    reveal_strlit("file_name_pattern");
    reveal_strlit("separator");
}

/// Reading back a rendered settings document yields the settings.
#[verifier::rlimit(100)]
#[verifier::spinoff_prover]
pub proof fn lemma_parse_settings_doc(s: DatabaseSettings)
    ensures
        parse_settings_doc(settings_json(s)) == Some(s),
{
    proof_token_literals();
    match s.file_name_pattern {
        FileNamePattern::StudentTask { separator } => {
            proof_variant_names_differ();
            lemma_parse_settings_obj("StudentTask"@, separator);
        },
        FileNamePattern::TaskStudent { separator } => {
            proof_variant_names_differ();
            lemma_parse_settings_obj("TaskStudent"@, separator);
        },
        FileNamePattern::StudentOnly => {
            let vname = "StudentOnly"@;
            let input = settings_json(s);
            let tail_end = "\n"@ + "}"@;
            let r0 = "\n  "@ + json_string_of("file_name_pattern"@) + ":"@ + " "@
                + (json_string_of(vname) + tail_end);
            assert(input =~= "{"@ + r0);
            assert(!is_json_ws(input[0]));
            assert(skip_ws(input) =~= input);
            assert(input.take(1) =~= "{"@);
            assert(input.skip(1) =~= r0);
            lemma_parse_key_colon("\n  "@, "file_name_pattern"@, json_string_of(vname)
                + tail_end);
            proof_variant_names_differ();
            assert((json_string_of(vname) + tail_end)[0] == '"');
            lemma_skip_ws_prefix(" "@, json_string_of(vname) + tail_end);
            lemma_parse_string_tok(vname, tail_end);
            assert(tail_end =~= "\n"@ + "}"@);
            lemma_skip_ws_prefix("\n"@, "}"@);
            assert("}"@.take(1) =~= "}"@);
            assert("}"@.skip(1) =~= Seq::<char>::empty());
            assert(skip_ws(Seq::<char>::empty()).len() == 0);
        },
    }
}

/// The variant tags differ pairwise, and none is the settings field
/// name.
proof fn proof_variant_names_differ()
    ensures
        "StudentTask"@ != "TaskStudent"@,
        "StudentTask"@ != "StudentOnly"@,
        "TaskStudent"@ != "StudentOnly"@,
        "StudentTask"@ != "file_name_pattern"@,
        "TaskStudent"@ != "file_name_pattern"@,
        "StudentOnly"@ != "file_name_pattern"@,
{
    reveal_strlit("StudentTask");
    reveal_strlit("TaskStudent");
    reveal_strlit("StudentOnly");
    reveal_strlit("file_name_pattern");
    assert("StudentTask"@[0] == 'S');
    assert("TaskStudent"@[0] == 'T');
    assert("StudentTask"@.len() == 11);
    assert("StudentOnly"@.len() == 11);
    assert("TaskStudent"@.len() == 11);
    assert("file_name_pattern"@.len() == 17);
    assert("StudentOnly"@[7] == 'O');
    assert("StudentTask"@[7] == 'T');
}

/// Escaping distributes over concatenation.
pub proof fn lemma_escape_append(a: Seq<char>, b: Seq<char>)
    ensures
        json_escape(a + b) =~= json_escape(a) + json_escape(b),
    decreases a.len(),
{
    if a.len() == 0 {
        assert(a + b =~= b);
    } else {
        lemma_escape_append(a.drop_first(), b);
        assert((a + b).drop_first() =~= a.drop_first() + b);
        assert((a + b)[0] == a[0]);
    }
}

/// A decimal digit character.
fn digit_exec(d: u32) -> (r: char)
    requires
        d < 10,
    ensures
        r == digit_char(d as int),
{
    if d == 0 { '0' } else if d == 1 { '1' } else if d == 2 { '2' } else if d == 3 { '3' }
    else if d == 4 { '4' } else if d == 5 { '5' } else if d == 6 { '6' } else if d == 7 { '7' }
    else if d == 8 { '8' } else { '9' }
}

/// A lower-case hexadecimal digit character.
fn hex_exec(d: u32) -> (r: char)
    requires
        d < 16,
    ensures
        r == hex_char(d as int),
{
    if d < 10 { digit_exec(d) }
    else if d == 10 { 'a' } else if d == 11 { 'b' } else if d == 12 { 'c' }
    else if d == 13 { 'd' } else if d == 14 { 'e' } else { 'f' }
}

/// The value of a decimal digit character, or 10.
fn digit_val_exec(c: char) -> (r: u32)
    ensures
        r == digit_val(c),
{
    if c == '0' { 0 } else if c == '1' { 1 } else if c == '2' { 2 } else if c == '3' { 3 }
    else if c == '4' { 4 } else if c == '5' { 5 } else if c == '6' { 6 } else if c == '7' { 7 }
    else if c == '8' { 8 } else if c == '9' { 9 } else { 10 }
}

/// The value of a lower-case hexadecimal digit character, or 16.
fn hex_val_exec(c: char) -> (r: u32)
    ensures
        r == hex_val(c),
{
    let d = digit_val_exec(c);
    if d < 10 { d }
    else if c == 'a' { 10 } else if c == 'b' { 11 } else if c == 'c' { 12 }
    else if c == 'd' { 13 } else if c == 'e' { 14 } else if c == 'f' { 15 } else { 16 }
}

/// The value of a hexadecimal digit of either case, or 16.
fn hex_digit_val_exec(c: char) -> (r: u32)
    ensures
        r == hex_digit_val(c),
{
    let d = hex_val_exec(c);
    if d < 16 { d }
    else if c == 'A' { 10 } else if c == 'B' { 11 } else if c == 'C' { 12 }
    else if c == 'D' { 13 } else if c == 'E' { 14 } else if c == 'F' { 15 } else { 16 }
}

/// Relies on char::from_u32: every code point outside the surrogate
/// range and below 0x110000 is a scalar value, converted exactly.
#[verifier::external_body]
fn char_from_code(code: u32) -> (r: char)
    requires
        code < 0xD800 || (0xE000 <= code && code < 0x110000),
    ensures
        r as u32 == code,
{
    char::from_u32(code).unwrap()
}

/// Appends the characters of a literal.
fn push_lit(out: &mut Vec<char>, lit: &str)
    ensures
        final(out)@ =~= old(out)@ + lit@,
{
    let n = lit.unicode_len();
    let mut k: usize = 0;
    while k < n
        invariant
            k <= n,
            n == lit@.len(),
            out@ =~= old(out)@ + lit@.take(k as int),
        decreases n - k,
    {
        out.push(lit.get_char(k));
        k = k + 1;
        proof {
            assert(out@ =~= old(out)@ + lit@.take(k as int));
        }
    }
    proof {
        assert(lit@.take(n as int) =~= lit@);
    }
}

/// Appends the written form of one character.
fn push_escape_char(out: &mut Vec<char>, c: char)
    ensures
        final(out)@ =~= old(out)@ + json_escape_char(c),
{
    if c == '"' {
        out.push('\\');
        out.push('"');
    } else if c == '\\' {
        out.push('\\');
        out.push('\\');
    } else if c == '\u{8}' {
        out.push('\\');
        out.push('b');
    } else if c == '\u{9}' {
        out.push('\\');
        out.push('t');
    } else if c == '\u{a}' {
        out.push('\\');
        out.push('n');
    } else if c == '\u{c}' {
        out.push('\\');
        out.push('f');
    } else if c == '\u{d}' {
        out.push('\\');
        out.push('r');
    } else {
        let code = c as u32;
        if code < 32 {
            out.push('\\');
            out.push('u');
            out.push('0');
            out.push('0');
            out.push(hex_exec(code / 16));
            out.push(hex_exec(code % 16));
        } else {
            out.push(c);
        }
    }
    proof {
        assert(out@ =~= old(out)@ + json_escape_char(c));
    }
}

/// Appends a complete JSON string token.
fn push_json_string(out: &mut Vec<char>, s: &str)
    ensures
        final(out)@ =~= old(out)@ + json_string_of(s@),
{
    let cs = crate::chars::str_chars(s);
    out.push('"');
    let ghost base = out@;
    let mut i: usize = 0;
    while i < cs.len()
        invariant
            i <= cs@.len(),
            cs@ == s@,
            out@ =~= base + json_escape(s@.take(i as int)),
        decreases cs@.len() - i,
    {
        push_escape_char(out, cs[i]);
        i = i + 1;
        proof {
            lemma_escape_append(s@.take(i as int - 1), seq![s@[i as int - 1]]);
            assert(s@.take(i as int - 1) + seq![s@[i as int - 1]] =~= s@.take(i as int));
            assert(seq![s@[i as int - 1]].drop_first() =~= Seq::<char>::empty());
            assert(json_escape(Seq::<char>::empty()) =~= Seq::<char>::empty());
            assert(seq![s@[i as int - 1]][0] == s@[i as int - 1]);
            assert(json_escape(seq![s@[i as int - 1]]) =~= json_escape_char(s@[i as int - 1]));
            assert(out@ =~= base + json_escape(s@.take(i as int)));
        }
    }
    proof {
        assert(s@.take(s@.len() as int) =~= s@);
    }
    out.push('"');
    proof {
        assert(out@ =~= old(out)@ + json_string_of(s@));
    }
}

/// Appends the decimal rendering of a natural number.
fn push_nat(out: &mut Vec<char>, n: u32)
    ensures
        final(out)@ =~= old(out)@ + dec_digits(n as nat),
    decreases n,
{
    if n < 10 {
        out.push(digit_exec(n));
        proof {
            assert(out@ =~= old(out)@ + dec_digits(n as nat));
        }
    } else {
        push_nat(out, n / 10);
        out.push(digit_exec(n % 10));
        proof {
            assert(out@ =~= old(out)@ + dec_digits(n as nat));
        }
    }
}

/// Appends the decimal rendering of a small signed integer.
fn push_int(out: &mut Vec<char>, v: i16)
    ensures
        final(out)@ =~= old(out)@ + int_str(v as int),
{
    if v < 0 {
        out.push('-');
        let m = -(v as i32);
        push_nat(out, m as u32);
        proof {
            assert(out@ =~= old(out)@ + int_str(v as int));
        }
    } else {
        push_nat(out, v as u32);
    }
}

/// Writes the metadata document in the canonical layout.
pub fn emit_metadata(m: &DatabaseMetadata) -> (r: String)
    ensures
        r@ == meta_json(m@),
{
    let mut out: Vec<char> = Vec::new();
    push_lit(&mut out, "{");
    push_lit(&mut out, "\n  ");
    push_json_string(&mut out, "id");
    push_lit(&mut out, ":");
    push_lit(&mut out, " ");
    push_json_string(&mut out, m.id.as_str());
    push_lit(&mut out, ",");
    push_lit(&mut out, "\n  ");
    push_json_string(&mut out, "name");
    push_lit(&mut out, ":");
    push_lit(&mut out, " ");
    push_json_string(&mut out, m.name.as_str());
    push_lit(&mut out, ",");
    push_lit(&mut out, "\n  ");
    push_json_string(&mut out, "description");
    push_lit(&mut out, ":");
    push_lit(&mut out, " ");
    match &m.description {
        Some(d) => push_json_string(&mut out, d.as_str()),
        None => push_lit(&mut out, "null"),
    }
    push_lit(&mut out, ",");
    push_lit(&mut out, "\n  ");
    push_json_string(&mut out, "version");
    push_lit(&mut out, ":");
    push_lit(&mut out, " ");
    push_int(&mut out, m.version);
    push_lit(&mut out, "\n");
    push_lit(&mut out, "}");
    proof {
        assert(out@ =~= meta_json(m@));
    }
    crate::chars::chars_string(&out)
}

/// Writes the settings document in the canonical layout.
#[verifier::rlimit(100)]
#[verifier::spinoff_prover]
pub fn emit_settings(s: &DatabaseSettings) -> (r: String)
    ensures
        r@ == settings_json(*s),
{
    let mut out: Vec<char> = Vec::new();
    push_lit(&mut out, "{");
    push_lit(&mut out, "\n  ");
    push_json_string(&mut out, "file_name_pattern");
    push_lit(&mut out, ":");
    push_lit(&mut out, " ");
    match &s.file_name_pattern {
        FileNamePattern::StudentTask { separator } => {
            push_settings_obj(&mut out, "StudentTask", *separator);
            proof {
                assert(out@ =~= settings_json(*s));
            }
        },
        FileNamePattern::TaskStudent { separator } => {
            push_settings_obj(&mut out, "TaskStudent", *separator);
            proof {
                assert(out@ =~= settings_json(*s));
            }
        },
        FileNamePattern::StudentOnly => {
            push_json_string(&mut out, "StudentOnly");
            push_lit(&mut out, "\n");
            push_lit(&mut out, "}");
            proof {
                assert(out@ =~= settings_json(*s));
            }
        },
    }
    crate::chars::chars_string(&out)
}

/// Appends the variant object of a separator-carrying pattern, from
/// the opening brace of the variant object through the document's
/// closing brace.
fn push_settings_obj(out: &mut Vec<char>, vname: &str, separator: char)
    ensures
        final(out)@ =~= old(out)@ + ("{"@ + "\n    "@ + json_string_of(vname@) + ":"@ + " "@
            + "{"@ + "\n      "@ + json_string_of("separator"@) + ":"@ + " "@ + json_string_of(
            seq![separator],
        ) + "\n    "@ + "}"@ + "\n  "@ + "}"@ + "\n"@ + "}"@),
{
    push_lit(out, "{");
    push_lit(out, "\n    ");
    push_json_string(out, vname);
    push_lit(out, ":");
    push_lit(out, " ");
    push_lit(out, "{");
    push_lit(out, "\n      ");
    push_json_string(out, "separator");
    push_lit(out, ":");
    push_lit(out, " ");
    let mut sv: Vec<char> = Vec::new();
    sv.push(separator);
    let sep_string = crate::chars::chars_string(&sv);
    push_json_string(out, sep_string.as_str());
    push_lit(out, "\n    ");
    push_lit(out, "}");
    push_lit(out, "\n  ");
    push_lit(out, "}");
    push_lit(out, "\n");
    push_lit(out, "}");
    proof {
        assert(sv@ =~= seq![separator]);
        assert(out@ =~= old(out)@ + ("{"@ + "\n    "@ + json_string_of(vname@) + ":"@ + " "@
            + "{"@ + "\n      "@ + json_string_of("separator"@) + ":"@ + " "@ + json_string_of(
            seq![separator],
        ) + "\n    "@ + "}"@ + "\n  "@ + "}"@ + "\n"@ + "}"@));
    }
}


/// At least the first `m` characters are digits, so the digit prefix
/// reaches that far.
proof fn lemma_digits_prefix_nonneg(s: Seq<char>)
    ensures
        digits_prefix_len(s) >= 0,
    decreases s.len(),
{
    if s.len() > 0 && is_digit(s[0]) {
        lemma_digits_prefix_nonneg(s.skip(1));
    }
}

proof fn lemma_digits_prefix_ge(s: Seq<char>, m: int)
    requires
        0 <= m <= s.len(),
        forall|j: int| 0 <= j < m ==> is_digit(#[trigger] s[j]),
    ensures
        digits_prefix_len(s) >= m,
    decreases m,
{
    lemma_digits_prefix_nonneg(s);
    if m > 0 {
        assert(is_digit(s[0]));
        assert(forall|j: int| 0 <= j < m - 1 ==> is_digit(#[trigger] s.skip(1)[j]));
        lemma_digits_prefix_ge(s.skip(1), m - 1);
    }
}

/// Consumes an expected literal at the given position.
fn expect_exec(input: &Vec<char>, pos: usize, lit: &str) -> (r: Option<usize>)
    requires
        pos <= input@.len(),
    ensures
        match r {
            Some(p) => pos <= p <= input@.len() && p == pos + lit@.len() && expect_str(
                input@.skip(pos as int),
                lit@,
            ) == Some(input@.skip(p as int)),
            None => expect_str(input@.skip(pos as int), lit@) is None,
        },
{
    let n = lit.unicode_len();
    let ilen = input.len();
    if ilen - pos < n {
        return None;
    }
    let mut k: usize = 0;
    while k < n
        invariant
            k <= n,
            n == lit@.len(),
            ilen == input@.len(),
            pos + n <= ilen,
            forall|j: int| 0 <= j < k ==> input@[pos + j] == lit@[j],
        decreases n - k,
    {
        if input[pos + k] != lit.get_char(k) {
            proof {
                let suf = input@.skip(pos as int);
                if suf.take(n as int) == lit@ {
                    assert(suf.take(n as int)[k as int] == lit@[k as int]);
                    assert(suf[k as int] == input@[pos + k]);
                }
            }
            return None;
        }
        k = k + 1;
    }
    proof {
        let suf = input@.skip(pos as int);
        assert(suf.take(n as int) =~= lit@);
        assert(suf.skip(n as int) =~= input@.skip(pos + n));
    }
    Some(pos + n)
}

/// Reads a string body from just past the opening quote.
fn parse_str_body_exec(input: &Vec<char>, pos: usize) -> (r: Option<(Vec<char>, usize)>)
    requires
        pos <= input@.len(),
    ensures
        match r {
            Some((s, p)) => pos <= p <= input@.len() && parse_str_body(input@.skip(pos as int))
                == Some((s@, input@.skip(p as int))),
            None => parse_str_body(input@.skip(pos as int)) is None,
        },
    decreases input@.len() - pos,
{
    let ghost inp = input@.skip(pos as int);
    if pos == input.len() {
        return None;
    }
    let c = input[pos];
    proof {
        assert(inp[0] == c);
    }
    if c == '"' {
        proof {
            assert(inp.skip(1) =~= input@.skip(pos as int + 1));
        }
        return Some((Vec::new(), pos + 1));
    }
    if c == '\\' {
        if pos + 1 == input.len() {
            return None;
        }
        let e = input[pos + 1];
        proof {
            assert(inp[1] == e);
        }
        if e == 'u' {
            if input.len() - pos < 6 {
                return None;
            }
            let h1 = hex_digit_val_exec(input[pos + 2]);
            let h2 = hex_digit_val_exec(input[pos + 3]);
            let h3 = hex_digit_val_exec(input[pos + 4]);
            let h4 = hex_digit_val_exec(input[pos + 5]);
            proof {
                assert(inp[2] == input@[pos + 2]);
                assert(inp[3] == input@[pos + 3]);
                assert(inp[4] == input@[pos + 4]);
                assert(inp[5] == input@[pos + 5]);
            }
            let code = h1 * 4096 + h2 * 256 + h3 * 16 + h4;
            if h1 < 16 && h2 < 16 && h3 < 16 && h4 < 16 && !(0xD800 <= code && code <= 0xDFFF) {
                match parse_str_body_exec(input, pos + 6) {
                    Some((rest_s, p)) => {
                        let ch = char_from_code(code);
                        let mut sv: Vec<char> = Vec::new();
                        sv.push(ch);
                        let mut tail_v = rest_s;
                        sv.append(&mut tail_v);
                        proof {
                            vstd::utf8::char_u32_cast(ch, code);
                            assert(ch == ((code as u32) as char));
                            assert(inp.skip(6) =~= input@.skip(pos as int + 6));
                            assert(sv@ =~= seq![ch] + parse_str_body(inp.skip(6)).unwrap().0);
                        }
                        Some((sv, p))
                    },
                    None => {
                        proof {
                            assert(inp.skip(6) =~= input@.skip(pos as int + 6));
                        }
                        None
                    },
                }
            } else {
                None
            }
        } else {
            let short = if e == '"' { Some('"') } else if e == '\\' { Some('\\') } else if e
                == '/' { Some('/') } else if e == 'b' { Some('\u{8}') } else if e == 't' {
                Some('\u{9}')
            } else if e == 'n' { Some('\u{a}') } else if e == 'f' { Some('\u{c}') } else if e
                == 'r' { Some('\u{d}') } else { None };
            proof {
                assert(short == unescape_short(e));
            }
            match short {
                Some(ch) => {
                    match parse_str_body_exec(input, pos + 2) {
                        Some((rest_s, p)) => {
                            let mut sv: Vec<char> = Vec::new();
                            sv.push(ch);
                            let mut tail_v = rest_s;
                            sv.append(&mut tail_v);
                            proof {
                                assert(inp.skip(2) =~= input@.skip(pos as int + 2));
                                assert(sv@ =~= seq![ch] + parse_str_body(inp.skip(2)).unwrap().0);
                            }
                            Some((sv, p))
                        },
                        None => {
                            proof {
                                assert(inp.skip(2) =~= input@.skip(pos as int + 2));
                            }
                            None
                        },
                    }
                },
                None => None,
            }
        }
    } else {
        match parse_str_body_exec(input, pos + 1) {
            Some((rest_s, p)) => {
                let mut sv: Vec<char> = Vec::new();
                sv.push(c);
                let mut tail_v = rest_s;
                sv.append(&mut tail_v);
                proof {
                    assert(inp.skip(1) =~= input@.skip(pos as int + 1));
                    assert(sv@ =~= seq![c] + parse_str_body(inp.skip(1)).unwrap().0);
                }
                Some((sv, p))
            },
            None => {
                proof {
                    assert(inp.skip(1) =~= input@.skip(pos as int + 1));
                }
                None
            },
        }
    }
}

/// Reads a complete string token at the given position.
fn parse_string_tok_exec(input: &Vec<char>, pos: usize) -> (r: Option<(Vec<char>, usize)>)
    requires
        pos <= input@.len(),
    ensures
        match r {
            Some((s, p)) => pos <= p <= input@.len() && parse_string_tok(input@.skip(pos as int))
                == Some((s@, input@.skip(p as int))),
            None => parse_string_tok(input@.skip(pos as int)) is None,
        },
{
    if pos < input.len() && input[pos] == '"' {
        proof {
            assert(input@.skip(pos as int)[0] == input@[pos as int]);
            assert(input@.skip(pos as int).skip(1) =~= input@.skip(pos as int + 1));
        }
        parse_str_body_exec(input, pos + 1)
    } else {
        None
    }
}

/// Reads a signed integer token at the given position.
fn parse_int_exec(input: &Vec<char>, pos: usize) -> (r: Option<(i32, usize)>)
    requires
        pos <= input@.len(),
    ensures
        match r {
            Some((v, p)) => pos <= p <= input@.len() && parse_int_tok(input@.skip(pos as int))
                == Some((v as int, input@.skip(p as int))),
            None => parse_int_tok(input@.skip(pos as int)) is None,
        },
{
    let ghost inp = input@.skip(pos as int);
    let neg = pos < input.len() && input[pos] == '-';
    let start = if neg { pos + 1 } else { pos };
    proof {
        if neg {
            assert(inp[0] == '-');
            assert(inp.skip(1) =~= input@.skip(start as int));
        }
    }
    let ghost digits_inp = input@.skip(start as int);
    let mut j = start;
    let mut acc: u32 = 0;
    proof {
        assert(pow10(0nat) == 1);
        assert(pow10(1nat) == 10);
        assert(pow10(2nat) == 100);
        assert(pow10(3nat) == 1000);
        assert(pow10(4nat) == 10000);
        assert(pow10(5nat) == 100000);
    }
    while j < input.len() && j - start < 5 && digit_val_exec(input[j]) < 10
        invariant
            pos <= start <= j <= input@.len(),
            j - start <= 5,
            digits_inp == input@.skip(start as int),
            forall|t: int| start <= t < j ==> is_digit(#[trigger] input@[t]),
            acc == nat_of_digits(input@.subrange(start as int, j as int)),
            acc < pow10((j - start) as nat),
            pow10(5nat) == 100000,
        decreases input@.len() - j,
    {
        let d = digit_val_exec(input[j]);
        proof {
            assert(input@.subrange(start as int, j as int + 1).drop_last() =~= input@.subrange(
                start as int,
                j as int,
            ));
            assert(input@.subrange(start as int, j as int + 1).last() == input@[j as int]);
            assert(pow10(((j - start) + 1) as nat) == 10 * pow10((j - start) as nat));
            assert(pow10((j - start) as nat) <= pow10(4nat)) by {
                assert(pow10(0nat) == 1);
                assert(pow10(1nat) == 10);
                assert(pow10(2nat) == 100);
                assert(pow10(3nat) == 1000);
                assert(pow10(4nat) == 10000);
            }
        }
        acc = acc * 10 + d;
        j = j + 1;
    }
    proof {
        assert(acc < 100000);
    }
    let k = j - start;
    proof {
        assert(forall|t: int|
            0 <= t < k ==> is_digit(#[trigger] digits_inp[t]) && digits_inp[t] == input@[start
                + t]);
    }
    if k == 0 {
        proof {
            if digits_inp.len() > 0 {
                assert(!is_digit(digits_inp[0]));
            }
        }
        return None;
    }
    if j < input.len() {
        let d = digit_val_exec(input[j]);
        if k == 5 && d < 10 {
            proof {
                assert(is_digit(digits_inp[5]));
                lemma_digits_prefix_ge(digits_inp, 6);
            }
            return None;
        }
    }
    proof {
        let ds = input@.subrange(start as int, j as int);
        let rest = input@.skip(j as int);
        assert(digits_inp =~= ds + rest);
        lemma_digits_prefix(ds, rest);
        assert(digits_prefix_len(digits_inp) == k);
        assert(digits_inp.take(k as int) =~= ds);
        assert(digits_inp.skip(k as int) =~= rest);
        if neg {
            assert(inp.skip(1 + k as int) =~= input@.skip(j as int));
        }
    }
    if neg {
        Some((-(acc as i32), j))
    } else {
        Some((acc as i32, j))
    }
}

/// Reads a string or the null token as an optional description.
fn parse_desc_exec(input: &Vec<char>, pos: usize) -> (r: Option<(Option<String>, usize)>)
    requires
        pos <= input@.len(),
    ensures
        match r {
            Some((d, p)) => pos <= p <= input@.len() && parse_desc(input@.skip(pos as int))
                == Some((crate::submission::opt_str_view(d), input@.skip(p as int))),
            None => parse_desc(input@.skip(pos as int)) is None,
        },
{
    if pos < input.len() && input[pos] == '"' {
        proof {
            assert(input@.skip(pos as int)[0] == input@[pos as int]);
        }
        match parse_string_tok_exec(input, pos) {
            Some((sv, p)) => Some((Some(crate::chars::chars_string(&sv)), p)),
            None => None,
        }
    } else {
        proof {
            if pos < input@.len() {
                assert(input@.skip(pos as int)[0] == input@[pos as int]);
            }
        }
        match expect_exec(input, pos, "null") {
            Some(p) => Some((None, p)),
            None => None,
        }
    }
}

/// Skips insignificant whitespace from the given position.
fn skip_ws_exec(input: &Vec<char>, pos: usize) -> (p: usize)
    requires
        pos <= input@.len(),
    ensures
        pos <= p <= input@.len(),
        input@.skip(p as int) =~= skip_ws(input@.skip(pos as int)),
        p < input@.len() ==> !is_json_ws(input@[p as int]),
{
    let mut p = pos;
    while p < input.len() && (input[p] == ' ' || input[p] == '\t' || input[p] == '\n'
        || input[p] == '\r')
        invariant
            pos <= p <= input@.len(),
            forall|j: int| pos <= j < p ==> is_json_ws(input@[j]),
        decreases input@.len() - p,
    {
        p = p + 1;
    }
    proof {
        let inp = input@.skip(pos as int);
        assert(forall|j: int| 0 <= j < p - pos ==> is_json_ws(#[trigger] inp[j]));
        if (p as int) < input@.len() {
            assert(inp[p - pos] == input@[p as int]);
        }
        lemma_skip_ws_at(inp, p - pos);
        assert(inp.skip(p - pos) =~= input@.skip(p as int));
    }
    p
}

/// Consumes an expected token after any whitespace.
fn expect_tok_exec(input: &Vec<char>, pos: usize, lit: &str) -> (r: Option<usize>)
    requires
        pos <= input@.len(),
    ensures
        match r {
            Some(p) => pos <= p <= input@.len() && expect_tok(input@.skip(pos as int), lit@)
                == Some(input@.skip(p as int)),
            None => expect_tok(input@.skip(pos as int), lit@) is None,
        },
{
    let q = skip_ws_exec(input, pos);
    expect_exec(input, q, lit)
}

/// Reads a string token after any whitespace.
fn parse_string_ws_exec(input: &Vec<char>, pos: usize) -> (r: Option<(Vec<char>, usize)>)
    requires
        pos <= input@.len(),
    ensures
        match r {
            Some((sv, p)) => pos <= p <= input@.len() && parse_string_ws(
                input@.skip(pos as int),
            ) == Some((sv@, input@.skip(p as int))),
            None => parse_string_ws(input@.skip(pos as int)) is None,
        },
{
    let q = skip_ws_exec(input, pos);
    parse_string_tok_exec(input, q)
}

/// Reads an integer token after any whitespace.
fn parse_int_ws_exec(input: &Vec<char>, pos: usize) -> (r: Option<(i32, usize)>)
    requires
        pos <= input@.len(),
    ensures
        match r {
            Some((v, p)) => pos <= p <= input@.len() && parse_int_ws(input@.skip(pos as int))
                == Some((v as int, input@.skip(p as int))),
            None => parse_int_ws(input@.skip(pos as int)) is None,
        },
{
    let q = skip_ws_exec(input, pos);
    parse_int_exec(input, q)
}

/// Reads an optional description after any whitespace.
fn parse_desc_ws_exec(input: &Vec<char>, pos: usize) -> (r: Option<(Option<String>, usize)>)
    requires
        pos <= input@.len(),
    ensures
        match r {
            Some((d, p)) => pos <= p <= input@.len() && parse_desc_ws(input@.skip(pos as int))
                == Some((crate::submission::opt_str_view(d), input@.skip(p as int))),
            None => parse_desc_ws(input@.skip(pos as int)) is None,
        },
{
    let q = skip_ws_exec(input, pos);
    parse_desc_exec(input, q)
}

/// The metadata fields collected so far, with any stored version
/// already inside the schema range.
struct MetaAccE {
    id: Option<String>,
    name: Option<String>,
    description: Option<Option<String>>,
    version: Option<i32>,
}

/// Any version collected so far sits inside the schema range.
spec fn acc_version_ok(a: MetaAccE) -> bool {
    match a.version {
        Some(v) => -32768 <= v <= 32767,
        None => true,
    }
}

/// The slots a collected accumulator stands for.
spec fn acc_view(a: MetaAccE) -> MetaAcc {
    MetaAcc {
        id: match a.id {
            Some(s) => Some(s@),
            None => None,
        },
        name: match a.name {
            Some(s) => Some(s@),
            None => None,
        },
        description: match a.description {
            Some(d) => Some(crate::submission::opt_str_view(d)),
            None => None,
        },
        version: match a.version {
            Some(v) => Some(v as int),
            None => None,
        },
    }
}

/// Reads one member and folds it into its slot.
fn parse_member_exec(input: &Vec<char>, pos: usize, acc: MetaAccE) -> (r: Option<
    (MetaAccE, usize),
>)
    requires
        pos <= input@.len(),
    ensures
        match r {
            Some(t) => t.1 <= input@.len() && parse_member(input@.skip(pos as int), acc_view(acc))
                == Some((acc_view(t.0), input@.skip(t.1 as int))) && (acc_version_ok(acc)
                ==> acc_version_ok(t.0)),
            None => parse_member(input@.skip(pos as int), acc_view(acc)) is None,
        },
{
    proof {
        reveal(parse_member);
    }
    let (key, p1) = match parse_string_ws_exec(input, pos) {
        Some(x) => x,
        None => {
            return None;
        },
    };
    let p2 = match expect_tok_exec(input, p1, ":") {
        Some(p) => p,
        None => {
            return None;
        },
    };
    let MetaAccE { id, name, description, version } = acc;
    if crate::chars::chars_eq_str(&key, "id") {
        if id.is_none() {
            match parse_string_ws_exec(input, p2) {
                Some((v, p)) => Some(
                    (
                        MetaAccE {
                            id: Some(crate::chars::chars_string(&v)),
                            name,
                            description,
                            version,
                        },
                        p,
                    ),
                ),
                None => None,
            }
        } else {
            None
        }
    } else if crate::chars::chars_eq_str(&key, "name") {
        if name.is_none() {
            match parse_string_ws_exec(input, p2) {
                Some((v, p)) => Some(
                    (
                        MetaAccE {
                            id,
                            name: Some(crate::chars::chars_string(&v)),
                            description,
                            version,
                        },
                        p,
                    ),
                ),
                None => None,
            }
        } else {
            None
        }
    } else if crate::chars::chars_eq_str(&key, "description") {
        if description.is_none() {
            match parse_desc_ws_exec(input, p2) {
                Some((v, p)) => Some(
                    (MetaAccE { id, name, description: Some(v), version }, p),
                ),
                None => None,
            }
        } else {
            None
        }
    } else if crate::chars::chars_eq_str(&key, "version") {
        if version.is_none() {
            match parse_int_ws_exec(input, p2) {
                Some((v, p)) => if -32768 <= v && v <= 32767 {
                    Some((MetaAccE { id, name, description, version: Some(v) }, p))
                } else {
                    None
                },
                None => None,
            }
        } else {
            None
        }
    } else {
        None
    }
}

/// Reads the metadata document: an object holding exactly the four
/// schema fields, each once, in any order, with any insignificant
/// whitespace between tokens and the standard string escapes — what
/// the original deserializer accepted for this schema. The one
/// narrowing left: an escaped surrogate pair is rejected, though the
/// same character written directly is read.
pub fn parse_metadata(text: &str) -> (r: Option<DatabaseMetadata>)
    ensures
        match r {
            Some(m) => parse_meta_doc(text@) == Some(m@),
            None => parse_meta_doc(text@) is None,
        },
{
    let input = crate::chars::str_chars(text);
    proof {
        assert(input@.skip(0) =~= text@);
    }
    let acc0 = MetaAccE { id: None, name: None, description: None, version: None };
    let p0 = match expect_tok_exec(&input, 0, "{") {
        Some(p) => p,
        None => {
            return None;
        },
    };
    let (a1, p1) = match parse_member_exec(&input, p0, acc0) {
        Some(x) => x,
        None => {
            return None;
        },
    };
    let p1b = match expect_tok_exec(&input, p1, ",") {
        Some(p) => p,
        None => {
            return None;
        },
    };
    let (a2, p2) = match parse_member_exec(&input, p1b, a1) {
        Some(x) => x,
        None => {
            return None;
        },
    };
    let p2b = match expect_tok_exec(&input, p2, ",") {
        Some(p) => p,
        None => {
            return None;
        },
    };
    let (a3, p3) = match parse_member_exec(&input, p2b, a2) {
        Some(x) => x,
        None => {
            return None;
        },
    };
    let p3b = match expect_tok_exec(&input, p3, ",") {
        Some(p) => p,
        None => {
            return None;
        },
    };
    let (a4, p4) = match parse_member_exec(&input, p3b, a3) {
        Some(x) => x,
        None => {
            return None;
        },
    };
    let p5 = match expect_tok_exec(&input, p4, "}") {
        Some(p) => p,
        None => {
            return None;
        },
    };
    let p6 = skip_ws_exec(&input, p5);
    if p6 != input.len() {
        return None;
    }
    proof {
        assert(skip_ws(input@.skip(p5 as int)).len() == 0);
    }
    proof {
        assert(acc_version_ok(acc0));
        assert(acc_version_ok(a4));
    }
    match (a4.id, a4.name, a4.description, a4.version) {
        (Some(id), Some(name), Some(description), Some(version)) => Some(
            DatabaseMetadata { id, name, description, version: version as i16 },
        ),
        _ => None,
    }
}

/// Reads the settings document: the one schema field holding either
/// the bare student-only tag or a variant object with its separator,
/// with the same whitespace, ordering and escape freedom as
/// [`parse_metadata`].
pub fn parse_settings(text: &str) -> (r: Option<DatabaseSettings>)
    ensures
        match r {
            Some(s) => parse_settings_doc(text@) == Some(s),
            None => parse_settings_doc(text@) is None,
        },
{
    let input = crate::chars::str_chars(text);
    proof {
        assert(input@.skip(0) =~= text@);
    }
    let p0 = match expect_tok_exec(&input, 0, "{") {
        Some(p) => p,
        None => {
            return None;
        },
    };
    let (key, p1) = match parse_string_ws_exec(&input, p0) {
        Some(x) => x,
        None => {
            return None;
        },
    };
    if !crate::chars::chars_eq_str(&key, "file_name_pattern") {
        return None;
    }
    let p2 = match expect_tok_exec(&input, p1, ":") {
        Some(p) => p,
        None => {
            return None;
        },
    };
    let v = skip_ws_exec(&input, p2);
    proof {
        if v < input@.len() {
            assert(input@.skip(v as int)[0] == input@[v as int]);
        }
    }
    if v < input.len() && input[v] == '"' {
        let (name, p3) = match parse_string_tok_exec(&input, v) {
            Some(x) => x,
            None => {
                return None;
            },
        };
        if !crate::chars::chars_eq_str(&name, "StudentOnly") {
            return None;
        }
        let p4 = match expect_tok_exec(&input, p3, "}") {
            Some(p) => p,
            None => {
                return None;
            },
        };
        let p5 = skip_ws_exec(&input, p4);
        if p5 != input.len() {
            return None;
        }
        proof {
            assert(skip_ws(input@.skip(p4 as int)).len() == 0);
        }
        Some(DatabaseSettings { file_name_pattern: FileNamePattern::StudentOnly })
    } else {
        let p3 = match expect_exec(&input, v, "{") {
            Some(p) => p,
            None => {
                return None;
            },
        };
        let (vname, p4) = match parse_string_ws_exec(&input, p3) {
            Some(x) => x,
            None => {
                return None;
            },
        };
        let p5 = match expect_tok_exec(&input, p4, ":") {
            Some(p) => p,
            None => {
                return None;
            },
        };
        let p6 = match expect_tok_exec(&input, p5, "{") {
            Some(p) => p,
            None => {
                return None;
            },
        };
        let (skey, p7) = match parse_string_ws_exec(&input, p6) {
            Some(x) => x,
            None => {
                return None;
            },
        };
        if !crate::chars::chars_eq_str(&skey, "separator") {
            return None;
        }
        let p8 = match expect_tok_exec(&input, p7, ":") {
            Some(p) => p,
            None => {
                return None;
            },
        };
        let (sep, p9) = match parse_string_ws_exec(&input, p8) {
            Some(x) => x,
            None => {
                return None;
            },
        };
        if sep.len() != 1 {
            return None;
        }
        let separator = sep[0];
        let p10 = match expect_tok_exec(&input, p9, "}") {
            Some(p) => p,
            None => {
                return None;
            },
        };
        let p11 = match expect_tok_exec(&input, p10, "}") {
            Some(p) => p,
            None => {
                return None;
            },
        };
        let p12 = match expect_tok_exec(&input, p11, "}") {
            Some(p) => p,
            None => {
                return None;
            },
        };
        let p13 = skip_ws_exec(&input, p12);
        if p13 != input.len() {
            return None;
        }
        proof {
            assert(skip_ws(input@.skip(p12 as int)).len() == 0);
        }
        if crate::chars::chars_eq_str(&vname, "StudentTask") {
            Some(DatabaseSettings { file_name_pattern: FileNamePattern::StudentTask { separator } })
        } else if crate::chars::chars_eq_str(&vname, "TaskStudent") {
            Some(DatabaseSettings { file_name_pattern: FileNamePattern::TaskStudent { separator } })
        } else {
            None
        }
    }
}

} // verus!
