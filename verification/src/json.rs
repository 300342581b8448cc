//! The wire codec: one envelope per line, as a JSON object with the payload
//! fields flattened beside a `"type"` tag. Encoding is defined by spec
//! functions over the mathematical values; decoding is proved to take every
//! encoded envelope back to the value it came from.

use vstd::prelude::*;

use crate::broadcast::BroadcastMessageView;
use crate::echo::EchoMessageView;
use crate::msg_protocol::MsgView;

verus! {

/// The decimal digit character for `d < 10`.
pub open spec fn digit_char(d: nat) -> char {
    ((48 + d % 10) as u8) as char
}

pub open spec fn is_digit(c: char) -> bool {
    '0' <= c && c <= '9'
}

pub open spec fn digit_val(c: char) -> nat {
    (c as u32 - 48) as nat
}

/// The lower-case hexadecimal digit character for `d < 16`.
pub open spec fn hex_char(d: nat) -> char {
    if d % 16 < 10 {
        ((48 + d % 16) as u8) as char
    } else {
        ((87 + d % 16) as u8) as char
    }
}

pub open spec fn is_hex(c: char) -> bool {
    ('0' <= c && c <= '9') || ('a' <= c && c <= 'f')
}

pub open spec fn hex_val(c: char) -> nat {
    if '0' <= c && c <= '9' {
        (c as u32 - 48) as nat
    } else {
        (c as u32 - 87) as nat
    }
}

/// The decimal digits of `n`, most significant first.
pub open spec fn dec_digits(n: nat) -> Seq<char>
    decreases n,
{
    if n < 10 {
        seq![digit_char(n)]
    } else {
        dec_digits(n / 10) + seq![digit_char(n % 10)]
    }
}

/// The JSON text of a signed number.
pub open spec fn json_i64(v: i64) -> Seq<char> {
    if v < 0 {
        seq!['-'] + dec_digits((-(v as int)) as nat)
    } else {
        dec_digits(v as nat)
    }
}

/// The escape of one character inside a JSON string.
pub open spec fn esc_char(c: char) -> Seq<char> {
    if c == '"' {
        seq!['\\', '"']
    } else if c == '\\' {
        seq!['\\', '\\']
    } else if (c as u32) < 32 {
        seq!['\\', 'u', '0', '0', hex_char(((c as u32) / 16) as nat), hex_char(
            ((c as u32) % 16) as nat,
        )]
    } else {
        seq![c]
    }
}

/// The body of a JSON string (between the quotes).
pub open spec fn json_str_body(s: Seq<char>) -> Seq<char>
    decreases s.len(),
{
    if s.len() == 0 {
        Seq::<char>::empty()
    } else {
        esc_char(s.first()) + json_str_body(s.drop_first())
    }
}

/// The JSON text of a string, quotes included.
pub open spec fn json_string(s: Seq<char>) -> Seq<char> {
    seq!['"'] + json_str_body(s) + seq!['"']
}

/// The JSON text of an optional string: `null` when absent.
pub open spec fn json_opt_string(s: Option<Seq<char>>) -> Seq<char> {
    match s {
        Some(x) => json_string(x),
        None => seq!['n', 'u', 'l', 'l'],
    }
}

/// The JSON text of an optional signed number: `null` when absent.
pub open spec fn json_opt_i64(v: Option<i64>) -> Seq<char> {
    match v {
        Some(x) => json_i64(x),
        None => seq!['n', 'u', 'l', 'l'],
    }
}

// ---------------------------------------------------------------------
// Parsing, on the same mathematical values. Every parser takes the text
// and a position and returns the parsed value with the position after it,
// or `None`.
// ---------------------------------------------------------------------

/// Whether `lit` occurs at position `i`.
pub open spec fn at_lit(s: Seq<char>, i: int, lit: Seq<char>) -> bool {
    0 <= i && i + lit.len() <= s.len() && s.subrange(i, i + lit.len()) == lit
}

/// Accumulating digit parser: reads digits while they fit in a `u64`.
pub open spec fn sp_digits(s: Seq<char>, i: int, acc: u64) -> Option<(u64, int)>
    decreases s.len() - i,
{
    if 0 <= i && i < s.len() && is_digit(s[i]) {
        if acc as nat * 10 + digit_val(s[i]) > u64::MAX as nat {
            None
        } else {
            sp_digits(s, i + 1, (acc * 10 + digit_val(s[i]) as u64) as u64)
        }
    } else {
        Some((acc, i))
    }
}

/// An unsigned number: one or more digits.
pub open spec fn sp_u64(s: Seq<char>, i: int) -> Option<(u64, int)> {
    if 0 <= i && i < s.len() && is_digit(s[i]) {
        sp_digits(s, i, 0)
    } else {
        None
    }
}

/// A signed number: an optional minus sign and digits.
pub open spec fn sp_i64(s: Seq<char>, i: int) -> Option<(i64, int)> {
    if 0 <= i && i < s.len() && s[i] == '-' {
        match sp_u64(s, i + 1) {
            Some((m, j)) => if m as nat <= 9223372036854775808nat {
                Some(((-(m as int)) as i64, j))
            } else {
                None
            },
            None => None,
        }
    } else {
        match sp_u64(s, i) {
            Some((m, j)) => if m <= i64::MAX as u64 {
                Some((m as i64, j))
            } else {
                None
            },
            None => None,
        }
    }
}

/// Prepend one decoded character to a string-body parse.
pub open spec fn sp_cons(c: char, rest: Option<(Seq<char>, int)>) -> Option<(Seq<char>, int)> {
    match rest {
        Some((tail, j)) => Some((seq![c] + tail, j)),
        None => None,
    }
}

/// The body of a JSON string, up to and including the closing quote.
pub open spec fn sp_str_body(s: Seq<char>, i: int) -> Option<(Seq<char>, int)>
    decreases s.len() - i,
{
    if i < 0 || i >= s.len() {
        None
    } else if s[i] == '"' {
        Some((Seq::<char>::empty(), i + 1))
    } else if s[i] == '\\' {
        if i + 1 >= s.len() {
            None
        } else if s[i + 1] == '"' {
            sp_cons('"', sp_str_body(s, i + 2))
        } else if s[i + 1] == '\\' {
            sp_cons('\\', sp_str_body(s, i + 2))
        } else if s[i + 1] == 'u' {
            if i + 6 <= s.len() && s[i + 2] == '0' && s[i + 3] == '0' && is_hex(s[i + 4])
                && is_hex(s[i + 5]) {
                sp_cons(
                    ((hex_val(s[i + 4]) * 16 + hex_val(s[i + 5])) as u8) as char,
                    sp_str_body(s, i + 6),
                )
            } else {
                None
            }
        } else {
            None
        }
    } else {
        sp_cons(s[i], sp_str_body(s, i + 1))
    }
}

/// A quoted JSON string.
pub open spec fn sp_string(s: Seq<char>, i: int) -> Option<(Seq<char>, int)> {
    if 0 <= i && i < s.len() && s[i] == '"' {
        sp_str_body(s, i + 1)
    } else {
        None
    }
}

/// An optional string: `null` or a quoted string.
pub open spec fn sp_opt_string(s: Seq<char>, i: int) -> Option<(Option<Seq<char>>, int)> {
    if at_lit(s, i, seq!['n', 'u', 'l', 'l']) {
        Some((None, i + 4))
    } else {
        match sp_string(s, i) {
            Some((x, j)) => Some((Some(x), j)),
            None => None,
        }
    }
}

/// An optional signed number: `null` or a number.
pub open spec fn sp_opt_i64(s: Seq<char>, i: int) -> Option<(Option<i64>, int)> {
    if at_lit(s, i, seq!['n', 'u', 'l', 'l']) {
        Some((None, i + 4))
    } else {
        match sp_i64(s, i) {
            Some((x, j)) => Some((Some(x), j)),
            None => None,
        }
    }
}

// ---------------------------------------------------------------------
// Round-trip lemmas for the primitives.
// ---------------------------------------------------------------------

/// A literal placed at `i` is found at `i`.
pub proof fn lemma_at_lit(s: Seq<char>, i: int, lit: Seq<char>)
    requires
        0 <= i,
        i + lit.len() <= s.len(),
        forall|k: int| 0 <= k < lit.len() ==> s[i + k] == lit[k],
    ensures
        at_lit(s, i, lit),
{
    assert(s.subrange(i, i + lit.len()) =~= lit);
}

/// Digit characters decode to their value.
pub proof fn lemma_digit_char(d: nat)
    requires
        d < 10,
    ensures
        is_digit(digit_char(d)),
        digit_val(digit_char(d)) == d,
        !(digit_char(d) == '"'),
        !(digit_char(d) == '\\'),
{
}

/// The accumulator form of the digit parser over an embedded number.
pub proof fn lemma_sp_digits_embed(s: Seq<char>, i: int, acc: u64, n: nat)
    requires
        0 <= i,
        i + dec_digits(n).len() <= s.len(),
        forall|k: int| 0 <= k < dec_digits(n).len() ==> s[i + k] == dec_digits(n)[k],
        acc as nat * pow10(dec_digits(n).len() as nat) + n <= u64::MAX as nat,
    ensures
        sp_digits(s, i, acc) == sp_digits(
            s,
            i + dec_digits(n).len(),
            (acc as nat * pow10(dec_digits(n).len() as nat) + n) as u64,
        ),
    decreases n,
{
    let ds = dec_digits(n);
    if n < 10 {
        assert(ds.len() == 1);
        assert(s[i + 0] == ds[0]);
        assert(s[i] == digit_char(n));
        lemma_digit_char(n);
        assert(pow10(0nat) == 1);
        assert(pow10(1) == 10);
        assert(acc as nat * 10 + n <= u64::MAX as nat);
        assert(sp_digits(s, i, acc) == sp_digits(s, i + 1, (acc * 10 + n as u64) as u64));
    } else {
        let hi = dec_digits(n / 10);
        let lo = digit_char(n % 10);
        assert(ds == hi + seq![lo]);
        assert forall|k: int| 0 <= k < hi.len() implies s[i + k] == hi[k] by {
            assert(s[i + k] == ds[k]);
            assert(ds[k] == hi[k]);
        }
        assert(pow10(ds.len() as nat) == pow10(hi.len() as nat) * 10) by {
            lemma_pow10_step(hi.len() as nat);
        }
        let p = pow10(hi.len() as nat);
        lemma_pow10_pos(hi.len() as nat);
        assert(acc as nat * (p * 10) + n == (acc as nat * p + n / 10) * 10 + n % 10)
            by (nonlinear_arith)
            requires
                n >= 10,
                p >= 1,
        ;
        assert(acc as nat * p + n / 10 <= u64::MAX as nat) by (nonlinear_arith)
            requires
                acc as nat * (p * 10) + n <= u64::MAX as nat,
                n >= 10,
                p >= 1,
                (acc as nat * p + n / 10) * 10 + n % 10 == acc as nat * (p * 10) + n,
        ;
        lemma_sp_digits_embed(s, i, acc, n / 10);
        let mid = (acc as nat * p + n / 10) as u64;
        assert(s[i + hi.len()] == ds[hi.len() as int]);
        assert(s[i + hi.len()] == lo);
        lemma_digit_char(n % 10);
        assert(sp_digits(s, i + hi.len(), mid) == sp_digits(
            s,
            i + hi.len() + 1,
            (mid * 10 + (n % 10) as u64) as u64,
        ));
    }
}

/// Ten to the `k`.
pub open spec fn pow10(k: nat) -> nat
    decreases k,
{
    if k == 0 {
        1nat
    } else {
        10 * pow10((k - 1) as nat)
    }
}

pub proof fn lemma_pow10_step(k: nat)
    ensures
        pow10(k + 1) == pow10(k) * 10,
{
}

/// The digits of `n <= u64::MAX` parse back to `n` when followed by a
/// non-digit (or the end of the text).
pub proof fn lemma_u64_round_trip(s: Seq<char>, i: int, n: u64)
    requires
        0 <= i,
        i + dec_digits(n as nat).len() <= s.len(),
        forall|k: int|
            0 <= k < dec_digits(n as nat).len() ==> s[i + k] == dec_digits(n as nat)[k],
        i + dec_digits(n as nat).len() == s.len() || !is_digit(s[i + dec_digits(n as nat).len()]),
    ensures
        sp_u64(s, i) == Some((n, i + dec_digits(n as nat).len())),
    decreases n,
{
    let ds = dec_digits(n as nat);
    lemma_dec_digits_first(n as nat);
    assert(s[i + 0] == ds[0]);
    assert(is_digit(s[i]));
    assert(pow10(ds.len() as nat) >= 1) by {
        lemma_pow10_pos(ds.len() as nat);
    }
    lemma_sp_digits_embed(s, i, 0, n as nat);
    assert(0 as nat * pow10(ds.len() as nat) + n as nat == n as nat) by (nonlinear_arith);
    assert(sp_digits(s, i + ds.len(), n) == Some((n, i + ds.len())));
}

pub proof fn lemma_pow10_pos(k: nat)
    ensures
        pow10(k) >= 1,
    decreases k,
{
    if k > 0 {
        lemma_pow10_pos((k - 1) as nat);
    }
}

/// The first digit character of a rendered number is a digit.
pub proof fn lemma_dec_digits_first(n: nat)
    ensures
        dec_digits(n).len() >= 1,
        is_digit(dec_digits(n)[0]),
        !(dec_digits(n)[0] == '-'),
        !(dec_digits(n)[0] == 'n'),
        !(dec_digits(n)[0] == '"'),
    decreases n,
{
    if n < 10 {
        lemma_digit_char(n);
    } else {
        lemma_dec_digits_first(n / 10);
        assert(dec_digits(n)[0] == dec_digits(n / 10)[0]);
    }
}

/// The JSON text of `v` parses back to `v` when followed by a non-digit
/// (or the end of the text).
pub proof fn lemma_i64_round_trip(s: Seq<char>, i: int, v: i64)
    requires
        0 <= i,
        i + json_i64(v).len() <= s.len(),
        forall|k: int| 0 <= k < json_i64(v).len() ==> s[i + k] == json_i64(v)[k],
        i + json_i64(v).len() == s.len() || !is_digit(s[i + json_i64(v).len()]),
    ensures
        sp_i64(s, i) == Some((v, i + json_i64(v).len())),
{
    if v < 0 {
        let m = (-(v as int)) as nat;
        assert(s[i + 0] == json_i64(v)[0]);
        assert(s[i] == '-');
        assert forall|k: int|
            0 <= k < dec_digits(m).len() implies s[i + 1 + k] == dec_digits(m)[k] by {
            assert(s[i + (1 + k)] == json_i64(v)[1 + k]);
            assert(json_i64(v)[1 + k] == dec_digits(m)[k]);
        }
        lemma_u64_round_trip(s, i + 1, m as u64);
        assert(m <= 9223372036854775808nat);
        assert((-(m as u64 as int)) as i64 == v);
    } else {
        lemma_dec_digits_first(v as nat);
        assert(s[i + 0] == json_i64(v)[0]);
        assert(s[i] == dec_digits(v as nat)[0]);
        assert(!(s[i] == '-'));
        lemma_u64_round_trip(s, i, v as u64);
    }
}

/// A region that holds a concatenation holds both parts.
pub proof fn lemma_chars_split(s: Seq<char>, i: int, a: Seq<char>, b: Seq<char>)
    requires
        0 <= i,
        i + a.len() + b.len() <= s.len(),
        forall|k: int| 0 <= k < (a + b).len() ==> s[i + k] == (a + b)[k],
    ensures
        forall|k: int| 0 <= k < a.len() ==> s[i + k] == a[k],
        forall|k: int| 0 <= k < b.len() ==> s[i + a.len() + k] == b[k],
{
    assert forall|k: int| 0 <= k < a.len() implies s[i + k] == a[k] by {
        assert(s[i + k] == (a + b)[k]);
    }
    assert forall|k: int| 0 <= k < b.len() implies s[i + a.len() + k] == b[k] by {
        assert(s[i + (a.len() + k)] == (a + b)[a.len() + k]);
    }
}

/// Hexadecimal digit characters decode to their value and are ordinary
/// string characters.
pub proof fn lemma_hex_char(d: nat)
    requires
        d < 16,
    ensures
        is_hex(hex_char(d)),
        hex_val(hex_char(d)) == d,
{
}

/// The escaped body of a string, followed by its closing quote, parses
/// back to the original characters.
pub proof fn lemma_str_body_round_trip(s: Seq<char>, i: int, content: Seq<char>)
    requires
        0 <= i,
        i + json_str_body(content).len() + 1 <= s.len(),
        forall|k: int|
            0 <= k < json_str_body(content).len() ==> s[i + k] == json_str_body(content)[k],
        s[i + json_str_body(content).len()] == '"',
    ensures
        sp_str_body(s, i) == Some((content, i + json_str_body(content).len() + 1)),
    decreases content.len(),
{
    let body = json_str_body(content);
    if content.len() == 0 {
        assert(s[i] == '"');
    } else {
        let c = content.first();
        let e = esc_char(c);
        let rest = json_str_body(content.drop_first());
        assert(body == e + rest);
        lemma_chars_split(s, i, e, rest);
        assert(s[i + e.len() + rest.len()] == '"') by {
            assert(i + e.len() + rest.len() == i + body.len());
        }
        assert forall|k: int| 0 <= k < e.len() implies s[i + k] == e[k] by {}
        assert(s[i + 0] == e[0]);
        lemma_str_body_round_trip(s, i + e.len(), content.drop_first());
        assert(seq![c] + content.drop_first() =~= content);
        if c == '"' {
            assert(s[i] == '\\' && s[i + 1] == '"');
        } else if c == '\\' {
            assert(s[i] == '\\' && s[i + 1] == '\\');
        } else if (c as u32) < 32 {
            let ci = (c as u32) as int;
            assert(0 <= ci < 32);
            let hi = (ci / 16) as nat;
            let lo = (ci % 16) as nat;
            assert(0 <= ci / 16 < 16 && 0 <= ci % 16 < 16 && ci / 16 * 16 + ci % 16 == ci)
                by (nonlinear_arith)
                requires
                    0 <= ci < 32,
            ;
            assert(s[i] == '\\' && s[i + 1] == 'u' && s[i + 2] == '0' && s[i + 3] == '0');
            assert(s[i + 4] == hex_char(hi) && s[i + 5] == hex_char(lo));
            lemma_hex_char(hi);
            lemma_hex_char(lo);
            assert(s[i + 4] == e[4] && s[i + 5] == e[5]);
            let vcode = hex_val(s[i + 4]) * 16 + hex_val(s[i + 5]);
            assert(vcode == c as u32);
            assert(vcode < 32);
            assert((vcode as u8) as char == c) by {
                vstd::utf8::char_u32_cast(c, c as u32);
                assert((vcode as u8) as int == (c as u32) as int);
                assert((vcode as u8) as char == (c as u32) as char);
            }
        } else {
            assert(s[i] == c);
            assert(!(c == '"') && !(c == '\\'));
        }
    }
}

/// A whole quoted string parses back to its characters.
pub proof fn lemma_string_round_trip(s: Seq<char>, i: int, content: Seq<char>)
    requires
        0 <= i,
        i + json_string(content).len() <= s.len(),
        forall|k: int|
            0 <= k < json_string(content).len() ==> s[i + k] == json_string(content)[k],
    ensures
        sp_string(s, i) == Some((content, i + json_string(content).len())),
{
    let body = json_str_body(content);
    assert(json_string(content) =~= seq!['"'] + (body + seq!['"']));
    lemma_chars_split(s, i, seq!['"'], body + seq!['"']);
    lemma_chars_split(s, i + 1, body, seq!['"']);
    assert(s[i + 0] == seq!['"'][0]);
    assert(s[i] == '"');
    assert(s[i + 1 + body.len() + 0] == seq!['"'][0]);
    assert(s[i + 1 + body.len()] == '"');
    lemma_str_body_round_trip(s, i + 1, content);
}

/// An encoded optional string parses back to itself.
pub proof fn lemma_opt_string_round_trip(s: Seq<char>, i: int, v: Option<Seq<char>>)
    requires
        0 <= i,
        i + json_opt_string(v).len() <= s.len(),
        forall|k: int|
            0 <= k < json_opt_string(v).len() ==> s[i + k] == json_opt_string(v)[k],
    ensures
        sp_opt_string(s, i) == Some((v, i + json_opt_string(v).len())),
{
    match v {
        None => {
            lemma_at_lit(s, i, seq!['n', 'u', 'l', 'l']);
        },
        Some(content) => {
            assert(s[i + 0] == json_opt_string(v)[0]);
            assert(json_opt_string(v)[0] == '"');
            if at_lit(s, i, seq!['n', 'u', 'l', 'l']) {
                assert(s.subrange(i, i + 4)[0] == 'n');
                assert(false);
            }
            lemma_string_round_trip(s, i, content);
        },
    }
}

/// An encoded optional number parses back to itself when followed by a
/// non-digit.
pub proof fn lemma_opt_i64_round_trip(s: Seq<char>, i: int, v: Option<i64>)
    requires
        0 <= i,
        i + json_opt_i64(v).len() <= s.len(),
        forall|k: int| 0 <= k < json_opt_i64(v).len() ==> s[i + k] == json_opt_i64(v)[k],
        i + json_opt_i64(v).len() == s.len() || !is_digit(s[i + json_opt_i64(v).len()]),
    ensures
        sp_opt_i64(s, i) == Some((v, i + json_opt_i64(v).len())),
{
    match v {
        None => {
            lemma_at_lit(s, i, seq!['n', 'u', 'l', 'l']);
        },
        Some(x) => {
            assert(s[i + 0] == json_i64(x)[0]);
            if x < 0 {
                assert(s[i] == '-');
            } else {
                lemma_dec_digits_first(x as nat);
            }
            if at_lit(s, i, seq!['n', 'u', 'l', 'l']) {
                assert(s.subrange(i, i + 4)[0] == 'n');
                assert(false);
            }
            lemma_i64_round_trip(s, i, x);
        },
    }
}

// ---------------------------------------------------------------------
// Lists and objects.
// ---------------------------------------------------------------------

/// The continuation of a list of numbers: `,` and a number per element.
pub open spec fn json_int_list_tail(vals: Seq<i64>) -> Seq<char>
    decreases vals.len(),
{
    if vals.len() == 0 {
        Seq::<char>::empty()
    } else {
        seq![','] + json_i64(vals.first()) + json_int_list_tail(vals.drop_first())
    }
}

/// The JSON text of a list of numbers.
pub open spec fn json_int_list(vals: Seq<i64>) -> Seq<char> {
    if vals.len() == 0 {
        seq!['[', ']']
    } else {
        seq!['['] + json_i64(vals.first()) + json_int_list_tail(vals.drop_first()) + seq![']']
    }
}

/// After the first element: `,` and a number, repeatedly, then `]`.
pub open spec fn sp_int_list_rest(s: Seq<char>, j: int, acc: Seq<i64>) -> Option<(Seq<i64>, int)>
    decreases s.len() - j,
{
    if j < 0 || j >= s.len() {
        None
    } else if s[j] == ']' {
        Some((acc, j + 1))
    } else if s[j] == ',' {
        match sp_i64(s, j + 1) {
            Some((v, j2)) => if j < j2 && j2 <= s.len() {
                sp_int_list_rest(s, j2, acc.push(v))
            } else {
                None
            },
            None => None,
        }
    } else {
        None
    }
}

/// A JSON list of numbers.
pub open spec fn sp_int_list(s: Seq<char>, i: int) -> Option<(Seq<i64>, int)> {
    if 0 <= i && i < s.len() && s[i] == '[' {
        if i + 1 < s.len() && s[i + 1] == ']' {
            Some((Seq::<i64>::empty(), i + 2))
        } else {
            match sp_i64(s, i + 1) {
                Some((v, j)) => sp_int_list_rest(s, j, seq![v]),
                None => None,
            }
        }
    } else {
        None
    }
}

/// The encoded tail of a number list parses back, extending what was
/// already read.
pub proof fn lemma_int_list_tail_round_trip(s: Seq<char>, j: int, acc: Seq<i64>, vals: Seq<i64>)
    requires
        0 <= j,
        j + json_int_list_tail(vals).len() + 1 <= s.len(),
        forall|k: int|
            0 <= k < json_int_list_tail(vals).len() ==> s[j + k] == json_int_list_tail(vals)[k],
        s[j + json_int_list_tail(vals).len()] == ']',
    ensures
        sp_int_list_rest(s, j, acc) == Some((acc + vals, j + json_int_list_tail(vals).len() + 1)),
    decreases vals.len(),
{
    let tail = json_int_list_tail(vals);
    if vals.len() == 0 {
        assert(s[j] == ']');
        assert(acc + vals =~= acc);
    } else {
        let v = vals.first();
        let num = json_i64(v);
        let rest = json_int_list_tail(vals.drop_first());
        assert(tail =~= seq![','] + (num + rest));
        lemma_chars_split(s, j, seq![','], num + rest);
        lemma_chars_split(s, j + 1, num, rest);
        assert(s[j + 0] == seq![','][0]);
        assert(s[j] == ',');
        assert(s[j + 1 + num.len() + rest.len()] == ']') by {
            assert(j + 1 + num.len() + rest.len() == j + tail.len());
        }
        let after: char = if rest.len() == 0 {
            ']'
        } else {
            ','
        };
        assert(s[j + 1 + num.len()] == after) by {
            if rest.len() > 0 {
                assert(s[j + 1 + num.len() + 0] == rest[0]);
                assert(rest[0] == ',');
            }
        }
        assert(!is_digit(after));
        lemma_i64_round_trip(s, j + 1, v);
        lemma_int_list_tail_round_trip(s, j + 1 + num.len(), acc.push(v), vals.drop_first());
        assert(acc.push(v) + vals.drop_first() =~= acc + vals);
    }
}

/// An encoded number list parses back to itself.
pub proof fn lemma_int_list_round_trip(s: Seq<char>, i: int, vals: Seq<i64>)
    requires
        0 <= i,
        i + json_int_list(vals).len() <= s.len(),
        forall|k: int|
            0 <= k < json_int_list(vals).len() ==> s[i + k] == json_int_list(vals)[k],
    ensures
        sp_int_list(s, i) == Some((vals, i + json_int_list(vals).len())),
{
    if vals.len() == 0 {
        assert(s[i + 0] == '[');
        assert(s[i + 1] == ']');
        assert(Seq::<i64>::empty() =~= vals);
    } else {
        let v = vals.first();
        let num = json_i64(v);
        let rest = json_int_list_tail(vals.drop_first());
        assert(json_int_list(vals) =~= seq!['['] + (num + (rest + seq![']'])));
        lemma_chars_split(s, i, seq!['['], num + (rest + seq![']']));
        lemma_chars_split(s, i + 1, num, rest + seq![']']);
        lemma_chars_split(s, i + 1 + num.len(), rest, seq![']']);
        assert(s[i + 0] == seq!['['][0]);
        assert(s[i] == '[');
        assert(s[i + 1 + 0] == num[0]);
        lemma_dec_digits_first(if v < 0 {
            (-(v as int)) as nat
        } else {
            v as nat
        });
        assert(!(s[i + 1] == ']')) by {
            if v < 0 {
                assert(num[0] == '-');
            } else {
                assert(is_digit(num[0]));
            }
        }
        assert(s[i + 1 + num.len() + rest.len() + 0] == seq![']'][0]);
        assert(s[i + 1 + num.len() + rest.len()] == ']');
        let after: char = if rest.len() == 0 {
            ']'
        } else {
            ','
        };
        assert(s[i + 1 + num.len()] == after) by {
            if rest.len() > 0 {
                assert(s[i + 1 + num.len() + 0] == rest[0]);
                assert(rest[0] == ',');
            }
        }
        assert(!is_digit(after));
        lemma_i64_round_trip(s, i + 1, v);
        lemma_int_list_tail_round_trip(s, i + 1 + num.len(), seq![v], vals.drop_first());
        assert(seq![v] + vals.drop_first() =~= vals);
    }
}

/// The continuation of a list of strings: `,` and a string per element.
pub open spec fn json_str_list_tail(vals: Seq<Seq<char>>) -> Seq<char>
    decreases vals.len(),
{
    if vals.len() == 0 {
        Seq::<char>::empty()
    } else {
        seq![','] + json_string(vals.first()) + json_str_list_tail(vals.drop_first())
    }
}

/// The JSON text of a list of strings.
pub open spec fn json_str_list(vals: Seq<Seq<char>>) -> Seq<char> {
    if vals.len() == 0 {
        seq!['[', ']']
    } else {
        seq!['['] + json_string(vals.first()) + json_str_list_tail(vals.drop_first()) + seq![']']
    }
}

/// After the first element: `,` and a string, repeatedly, then `]`.
pub open spec fn sp_str_list_rest(s: Seq<char>, j: int, acc: Seq<Seq<char>>) -> Option<
    (Seq<Seq<char>>, int),
>
    decreases s.len() - j,
{
    if j < 0 || j >= s.len() {
        None
    } else if s[j] == ']' {
        Some((acc, j + 1))
    } else if s[j] == ',' {
        match sp_string(s, j + 1) {
            Some((v, j2)) => if j < j2 && j2 <= s.len() {
                sp_str_list_rest(s, j2, acc.push(v))
            } else {
                None
            },
            None => None,
        }
    } else {
        None
    }
}

/// A JSON list of strings.
pub open spec fn sp_str_list(s: Seq<char>, i: int) -> Option<(Seq<Seq<char>>, int)> {
    if 0 <= i && i < s.len() && s[i] == '[' {
        if i + 1 < s.len() && s[i + 1] == ']' {
            Some((Seq::<Seq<char>>::empty(), i + 2))
        } else {
            match sp_string(s, i + 1) {
                Some((v, j)) => sp_str_list_rest(s, j, seq![v]),
                None => None,
            }
        }
    } else {
        None
    }
}

/// The encoded tail of a string list parses back, extending what was
/// already read.
pub proof fn lemma_str_list_tail_round_trip(
    s: Seq<char>,
    j: int,
    acc: Seq<Seq<char>>,
    vals: Seq<Seq<char>>,
)
    requires
        0 <= j,
        j + json_str_list_tail(vals).len() + 1 <= s.len(),
        forall|k: int|
            0 <= k < json_str_list_tail(vals).len() ==> s[j + k] == json_str_list_tail(vals)[k],
        s[j + json_str_list_tail(vals).len()] == ']',
    ensures
        sp_str_list_rest(s, j, acc) == Some((acc + vals, j + json_str_list_tail(vals).len() + 1)),
    decreases vals.len(),
{
    let tail = json_str_list_tail(vals);
    if vals.len() == 0 {
        assert(s[j] == ']');
        assert(acc + vals =~= acc);
    } else {
        let v = vals.first();
        let str = json_string(v);
        let rest = json_str_list_tail(vals.drop_first());
        assert(tail =~= seq![','] + (str + rest));
        lemma_chars_split(s, j, seq![','], str + rest);
        lemma_chars_split(s, j + 1, str, rest);
        assert(s[j + 0] == seq![','][0]);
        assert(s[j] == ',');
        assert(s[j + 1 + str.len() + rest.len()] == ']') by {
            assert(j + 1 + str.len() + rest.len() == j + tail.len());
        }
        lemma_string_round_trip(s, j + 1, v);
        lemma_str_list_tail_round_trip(s, j + 1 + str.len(), acc.push(v), vals.drop_first());
        assert(acc.push(v) + vals.drop_first() =~= acc + vals);
    }
}

/// An encoded string list parses back to itself.
pub proof fn lemma_str_list_round_trip(s: Seq<char>, i: int, vals: Seq<Seq<char>>)
    requires
        0 <= i,
        i + json_str_list(vals).len() <= s.len(),
        forall|k: int|
            0 <= k < json_str_list(vals).len() ==> s[i + k] == json_str_list(vals)[k],
    ensures
        sp_str_list(s, i) == Some((vals, i + json_str_list(vals).len())),
{
    if vals.len() == 0 {
        assert(s[i + 0] == json_str_list(vals)[0]);
        assert(s[i + 1] == json_str_list(vals)[1]);
        assert(Seq::<Seq<char>>::empty() =~= vals);
    } else {
        let v = vals.first();
        let str = json_string(v);
        let rest = json_str_list_tail(vals.drop_first());
        assert(json_str_list(vals) =~= seq!['['] + (str + (rest + seq![']'])));
        lemma_chars_split(s, i, seq!['['], str + (rest + seq![']']));
        lemma_chars_split(s, i + 1, str, rest + seq![']']);
        lemma_chars_split(s, i + 1 + str.len(), rest, seq![']']);
        assert(s[i + 0] == seq!['['][0]);
        assert(s[i] == '[');
        assert(s[i + 1 + 0] == str[0]);
        assert(s[i + 1] == '"');
        assert(s[i + 1 + str.len() + rest.len() + 0] == seq![']'][0]);
        assert(s[i + 1 + str.len() + rest.len()] == ']');
        lemma_string_round_trip(s, i + 1, v);
        lemma_str_list_tail_round_trip(s, i + 1 + str.len(), seq![v], vals.drop_first());
        assert(seq![v] + vals.drop_first() =~= vals);
    }
}

/// One topology entry: a node id and its neighbor list.
pub open spec fn json_topo_entry(e: (Seq<char>, Seq<Seq<char>>)) -> Seq<char> {
    json_string(e.0) + seq![':'] + json_str_list(e.1)
}

/// The continuation of a topology object: `,` and an entry per element.
pub open spec fn json_topo_tail(t: Seq<(Seq<char>, Seq<Seq<char>>)>) -> Seq<char>
    decreases t.len(),
{
    if t.len() == 0 {
        Seq::<char>::empty()
    } else {
        seq![','] + json_topo_entry(t.first()) + json_topo_tail(t.drop_first())
    }
}

/// The JSON text of a topology mapping.
pub open spec fn json_topology(t: Seq<(Seq<char>, Seq<Seq<char>>)>) -> Seq<char> {
    if t.len() == 0 {
        seq!['{', '}']
    } else {
        seq!['{'] + json_topo_entry(t.first()) + json_topo_tail(t.drop_first()) + seq!['}']
    }
}

/// One topology entry: a string key, `:`, a string list.
pub open spec fn sp_topo_entry(s: Seq<char>, i: int) -> Option<((Seq<char>, Seq<Seq<char>>), int)> {
    match sp_string(s, i) {
        Some((k, j)) => if j < s.len() && s[j] == ':' {
            match sp_str_list(s, j + 1) {
                Some((v, j2)) => Some(((k, v), j2)),
                None => None,
            }
        } else {
            None
        },
        None => None,
    }
}

/// After the first entry: `,` and an entry, repeatedly, then `}`.
pub open spec fn sp_topo_rest(s: Seq<char>, j: int, acc: Seq<(Seq<char>, Seq<Seq<char>>)>) -> Option<
    (Seq<(Seq<char>, Seq<Seq<char>>)>, int),
>
    decreases s.len() - j,
{
    if j < 0 || j >= s.len() {
        None
    } else if s[j] == '}' {
        Some((acc, j + 1))
    } else if s[j] == ',' {
        match sp_topo_entry(s, j + 1) {
            Some((e, j2)) => if j < j2 && j2 <= s.len() {
                sp_topo_rest(s, j2, acc.push(e))
            } else {
                None
            },
            None => None,
        }
    } else {
        None
    }
}

/// A JSON topology object.
pub open spec fn sp_topology(s: Seq<char>, i: int) -> Option<(Seq<(Seq<char>, Seq<Seq<char>>)>, int)> {
    if 0 <= i && i < s.len() && s[i] == '{' {
        if i + 1 < s.len() && s[i + 1] == '}' {
            Some((Seq::<(Seq<char>, Seq<Seq<char>>)>::empty(), i + 2))
        } else {
            match sp_topo_entry(s, i + 1) {
                Some((e, j)) => sp_topo_rest(s, j, seq![e]),
                None => None,
            }
        }
    } else {
        None
    }
}

/// An encoded topology entry parses back to itself.
pub proof fn lemma_topo_entry_round_trip(s: Seq<char>, i: int, e: (Seq<char>, Seq<Seq<char>>))
    requires
        0 <= i,
        i + json_topo_entry(e).len() <= s.len(),
        forall|k: int|
            0 <= k < json_topo_entry(e).len() ==> s[i + k] == json_topo_entry(e)[k],
    ensures
        sp_topo_entry(s, i) == Some((e, i + json_topo_entry(e).len())),
{
    let key = json_string(e.0);
    let lst = json_str_list(e.1);
    assert(json_topo_entry(e) =~= key + (seq![':'] + lst));
    lemma_chars_split(s, i, key, seq![':'] + lst);
    lemma_chars_split(s, i + key.len(), seq![':'], lst);
    assert(s[i + key.len() + 0] == seq![':'][0]);
    assert(s[i + key.len()] == ':');
    lemma_string_round_trip(s, i, e.0);
    lemma_str_list_round_trip(s, i + key.len() + 1, e.1);
    assert((e.0, e.1) == e);
}

/// The encoded tail of a topology object parses back, extending what was
/// already read.
pub proof fn lemma_topo_tail_round_trip(
    s: Seq<char>,
    j: int,
    acc: Seq<(Seq<char>, Seq<Seq<char>>)>,
    t: Seq<(Seq<char>, Seq<Seq<char>>)>,
)
    requires
        0 <= j,
        j + json_topo_tail(t).len() + 1 <= s.len(),
        forall|k: int| 0 <= k < json_topo_tail(t).len() ==> s[j + k] == json_topo_tail(t)[k],
        s[j + json_topo_tail(t).len()] == '}',
    ensures
        sp_topo_rest(s, j, acc) == Some((acc + t, j + json_topo_tail(t).len() + 1)),
    decreases t.len(),
{
    let tail = json_topo_tail(t);
    if t.len() == 0 {
        assert(s[j] == '}');
        assert(acc + t =~= acc);
    } else {
        let e = t.first();
        let entry = json_topo_entry(e);
        let rest = json_topo_tail(t.drop_first());
        assert(tail =~= seq![','] + (entry + rest));
        lemma_chars_split(s, j, seq![','], entry + rest);
        lemma_chars_split(s, j + 1, entry, rest);
        assert(s[j + 0] == seq![','][0]);
        assert(s[j] == ',');
        assert(s[j + 1 + entry.len() + rest.len()] == '}') by {
            assert(j + 1 + entry.len() + rest.len() == j + tail.len());
        }
        lemma_topo_entry_round_trip(s, j + 1, e);
        lemma_topo_tail_round_trip(s, j + 1 + entry.len(), acc.push(e), t.drop_first());
        assert(acc.push(e) + t.drop_first() =~= acc + t);
    }
}

/// An encoded topology object parses back to itself.
pub proof fn lemma_topology_round_trip(s: Seq<char>, i: int, t: Seq<(Seq<char>, Seq<Seq<char>>)>)
    requires
        0 <= i,
        i + json_topology(t).len() <= s.len(),
        forall|k: int| 0 <= k < json_topology(t).len() ==> s[i + k] == json_topology(t)[k],
    ensures
        sp_topology(s, i) == Some((t, i + json_topology(t).len())),
{
    if t.len() == 0 {
        assert(s[i + 0] == json_topology(t)[0]);
        assert(s[i + 1] == json_topology(t)[1]);
        assert(Seq::<(Seq<char>, Seq<Seq<char>>)>::empty() =~= t);
    } else {
        let e = t.first();
        let entry = json_topo_entry(e);
        let rest = json_topo_tail(t.drop_first());
        assert(json_topology(t) =~= seq!['{'] + (entry + (rest + seq!['}'])));
        lemma_chars_split(s, i, seq!['{'], entry + (rest + seq!['}']));
        lemma_chars_split(s, i + 1, entry, rest + seq!['}']);
        lemma_chars_split(s, i + 1 + entry.len(), rest, seq!['}']);
        assert(s[i + 0] == seq!['{'][0]);
        assert(s[i] == '{');
        assert(s[i + 1 + 0] == entry[0]);
        assert(entry[0] == '"');
        assert(s[i + 1] == '"');
        assert(s[i + 1 + entry.len() + rest.len() + 0] == seq!['}'][0]);
        assert(s[i + 1 + entry.len() + rest.len()] == '}');
        lemma_topo_entry_round_trip(s, i + 1, e);
        lemma_topo_tail_round_trip(s, i + 1 + entry.len(), seq![e], t.drop_first());
        assert(seq![e] + t.drop_first() =~= t);
    }
}

// ---------------------------------------------------------------------
// Envelopes: `{"src":..,"dest":..,"body":{"msg_id":..,"in_reply_to":..,
// <payload fields>}}`, with the payload discriminated by its `"type"` tag.
// ---------------------------------------------------------------------

/// The id fields hold values a wire number can carry.
pub open spec fn id_in_range(v: Option<int>) -> bool {
    match v {
        Some(x) => i64::MIN <= x <= i64::MAX,
        None => true,
    }
}

/// The JSON text of an optional message id.
pub open spec fn json_opt_id(v: Option<int>) -> Seq<char> {
    match v {
        Some(x) => json_i64(x as i64),
        None => seq!['n', 'u', 'l', 'l'],
    }
}

/// An optional message id.
pub open spec fn sp_opt_id(s: Seq<char>, i: int) -> Option<(Option<int>, int)> {
    match sp_opt_i64(s, i) {
        Some((Some(x), j)) => Some((Some(x as int), j)),
        Some((None, j)) => Some((None, j)),
        None => None,
    }
}

/// An encoded optional id parses back to itself.
pub proof fn lemma_opt_id_round_trip(s: Seq<char>, i: int, v: Option<int>)
    requires
        0 <= i,
        id_in_range(v),
        i + json_opt_id(v).len() <= s.len(),
        forall|k: int| 0 <= k < json_opt_id(v).len() ==> s[i + k] == json_opt_id(v)[k],
        i + json_opt_id(v).len() == s.len() || !is_digit(s[i + json_opt_id(v).len()]),
    ensures
        sp_opt_id(s, i) == Some((v, i + json_opt_id(v).len())),
{
    match v {
        Some(x) => {
            lemma_opt_i64_round_trip(s, i, Some(x as i64));
        },
        None => {
            lemma_opt_i64_round_trip(s, i, None);
        },
    }
}

/// The common head of every envelope, up to the comma before the payload.
pub open spec fn json_env_head(
    src: Option<Seq<char>>,
    dest: Option<Seq<char>>,
    msg_id: Option<int>,
    in_reply_to: Option<int>,
) -> Seq<char> {
    "{\"src\":"@ + json_opt_string(src) + ",\"dest\":"@ + json_opt_string(dest)
        + ",\"body\":{\"msg_id\":"@ + json_opt_id(msg_id) + ",\"in_reply_to\":"@ + json_opt_id(
        in_reply_to,
    ) + ","@
}

/// The common head of every envelope.
pub open spec fn sp_env_head(s: Seq<char>, i: int) -> Option<
    ((Option<Seq<char>>, Option<Seq<char>>, Option<int>, Option<int>), int),
> {
    if at_lit(s, i, "{\"src\":"@) {
        match sp_opt_string(s, i + "{\"src\":"@.len()) {
            Some((src, j1)) => if at_lit(s, j1, ",\"dest\":"@) {
                match sp_opt_string(s, j1 + ",\"dest\":"@.len()) {
                    Some((dest, j2)) => if at_lit(s, j2, ",\"body\":{\"msg_id\":"@) {
                        match sp_opt_id(s, j2 + ",\"body\":{\"msg_id\":"@.len()) {
                            Some((mi, j3)) => if at_lit(s, j3, ",\"in_reply_to\":"@) {
                                match sp_opt_id(s, j3 + ",\"in_reply_to\":"@.len()) {
                                    Some((ir, j4)) => if at_lit(s, j4, ","@) {
                                        Some(((src, dest, mi, ir), j4 + 1))
                                    } else {
                                        None
                                    },
                                    None => None,
                                }
                            } else {
                                None
                            },
                            None => None,
                        }
                    } else {
                        None
                    },
                    None => None,
                }
            } else {
                None
            },
            None => None,
        }
    } else {
        None
    }
}

/// An encoded envelope head parses back to its four fields.
#[verifier::rlimit(80)]
pub proof fn lemma_env_head_round_trip(
    s: Seq<char>,
    i: int,
    src: Option<Seq<char>>,
    dest: Option<Seq<char>>,
    msg_id: Option<int>,
    in_reply_to: Option<int>,
)
    requires
        0 <= i,
        id_in_range(msg_id),
        id_in_range(in_reply_to),
        i + json_env_head(src, dest, msg_id, in_reply_to).len() <= s.len(),
        forall|k: int|
            0 <= k < json_env_head(src, dest, msg_id, in_reply_to).len() ==> s[i + k]
                == json_env_head(src, dest, msg_id, in_reply_to)[k],
    ensures
        sp_env_head(s, i) == Some(
            ((src, dest, msg_id, in_reply_to), i + json_env_head(
                src,
                dest,
                msg_id,
                in_reply_to,
            ).len()),
        ),
{
    reveal_strlit("{\"src\":");
    reveal_strlit(",\"dest\":");
    reveal_strlit(",\"body\":{\"msg_id\":");
    reveal_strlit(",\"in_reply_to\":");
    reveal_strlit(",");
    let l1 = "{\"src\":"@;
    let l2 = ",\"dest\":"@;
    let l3 = ",\"body\":{\"msg_id\":"@;
    let l4 = ",\"in_reply_to\":"@;
    let l5 = ","@;
    let p1 = json_opt_string(src);
    let p2 = json_opt_string(dest);
    let p3 = json_opt_id(msg_id);
    let p4 = json_opt_id(in_reply_to);
    let enc = json_env_head(src, dest, msg_id, in_reply_to);
    assert(enc =~= l1 + (p1 + (l2 + (p2 + (l3 + (p3 + (l4 + (p4 + l5))))))));
    lemma_chars_split(s, i, l1, p1 + (l2 + (p2 + (l3 + (p3 + (l4 + (p4 + l5)))))));
    let i1 = i + l1.len();
    lemma_chars_split(s, i1, p1, l2 + (p2 + (l3 + (p3 + (l4 + (p4 + l5))))));
    let i2 = i1 + p1.len();
    lemma_chars_split(s, i2, l2, p2 + (l3 + (p3 + (l4 + (p4 + l5)))));
    let i3 = i2 + l2.len();
    lemma_chars_split(s, i3, p2, l3 + (p3 + (l4 + (p4 + l5))));
    let i4 = i3 + p2.len();
    lemma_chars_split(s, i4, l3, p3 + (l4 + (p4 + l5)));
    let i5 = i4 + l3.len();
    lemma_chars_split(s, i5, p3, l4 + (p4 + l5));
    let i6 = i5 + p3.len();
    lemma_chars_split(s, i6, l4, p4 + l5);
    let i7 = i6 + l4.len();
    lemma_chars_split(s, i7, p4, l5);
    let i8 = i7 + p4.len();
    lemma_at_lit(s, i, l1);
    lemma_at_lit(s, i2, l2);
    lemma_at_lit(s, i4, l3);
    lemma_at_lit(s, i6, l4);
    lemma_at_lit(s, i8, l5);
    lemma_opt_string_round_trip(s, i1, src);
    lemma_opt_string_round_trip(s, i3, dest);
    assert(s[i5 + p3.len() + 0] == l4[0]);
    assert(!is_digit(s[i5 + p3.len()])) by {
        assert(l4[0] == ',');
    }
    lemma_opt_id_round_trip(s, i5, msg_id);
    assert(s[i7 + p4.len() + 0] == l5[0]);
    assert(!is_digit(s[i7 + p4.len()])) by {
        assert(l5[0] == ',');
    }
    lemma_opt_id_round_trip(s, i7, in_reply_to);
}

// ---------------------------------------------------------------------
// The broadcast protocol's payloads and envelopes.
// ---------------------------------------------------------------------

/// A mismatching character refutes a literal match.
pub proof fn lemma_not_at_lit(s: Seq<char>, i: int, lit: Seq<char>, p: int, c: char)
    requires
        0 <= p < lit.len(),
        0 <= i,
        i + p < s.len(),
        s[i + p] == c,
        lit[p] != c,
    ensures
        !at_lit(s, i, lit),
{
    if at_lit(s, i, lit) {
        assert(s.subrange(i, i + lit.len())[p] == s[i + p]);
    }
}

/// The flattened payload fields of a broadcast-protocol body.
pub open spec fn json_broadcast_payload(p: BroadcastMessageView) -> Seq<char> {
    match p {
        BroadcastMessageView::Init { node_id, node_ids } => "\"type\":\"init\",\"node_id\":"@
            + json_string(node_id) + ",\"node_ids\":"@ + json_str_list(node_ids),
        BroadcastMessageView::InitOk => "\"type\":\"init_ok\""@,
        BroadcastMessageView::Broadcast { message } => "\"type\":\"broadcast\",\"message\":"@
            + json_i64(message),
        BroadcastMessageView::BroadcastOk => "\"type\":\"broadcast_ok\""@,
        BroadcastMessageView::Read => "\"type\":\"read\""@,
        BroadcastMessageView::ReadOk { messages } => "\"type\":\"read_ok\",\"messages\":"@
            + json_int_list(messages),
        BroadcastMessageView::Topology { topology } => "\"type\":\"topology\",\"topology\":"@
            + json_topology(topology),
        BroadcastMessageView::TopologyOk => "\"type\":\"topology_ok\""@,
    }
}

/// The flattened payload fields of a broadcast-protocol body, parsed by
/// their `"type"` tag.
pub open spec fn sp_broadcast_payload(s: Seq<char>, i: int) -> Option<(BroadcastMessageView, int)> {
    if at_lit(s, i, "\"type\":\"init\",\"node_id\":"@) {
        match sp_string(s, i + "\"type\":\"init\",\"node_id\":"@.len()) {
            Some((nid, j)) => if at_lit(s, j, ",\"node_ids\":"@) {
                match sp_str_list(s, j + ",\"node_ids\":"@.len()) {
                    Some((ns, j2)) => Some(
                        (BroadcastMessageView::Init { node_id: nid, node_ids: ns }, j2),
                    ),
                    None => None,
                }
            } else {
                None
            },
            None => None,
        }
    } else if at_lit(s, i, "\"type\":\"init_ok\""@) {
        Some((BroadcastMessageView::InitOk, i + "\"type\":\"init_ok\""@.len()))
    } else if at_lit(s, i, "\"type\":\"broadcast\",\"message\":"@) {
        match sp_i64(s, i + "\"type\":\"broadcast\",\"message\":"@.len()) {
            Some((v, j)) => Some((BroadcastMessageView::Broadcast { message: v }, j)),
            None => None,
        }
    } else if at_lit(s, i, "\"type\":\"broadcast_ok\""@) {
        Some((BroadcastMessageView::BroadcastOk, i + "\"type\":\"broadcast_ok\""@.len()))
    } else if at_lit(s, i, "\"type\":\"read\""@) {
        Some((BroadcastMessageView::Read, i + "\"type\":\"read\""@.len()))
    } else if at_lit(s, i, "\"type\":\"read_ok\",\"messages\":"@) {
        match sp_int_list(s, i + "\"type\":\"read_ok\",\"messages\":"@.len()) {
            Some((vs, j)) => Some((BroadcastMessageView::ReadOk { messages: vs }, j)),
            None => None,
        }
    } else if at_lit(s, i, "\"type\":\"topology\",\"topology\":"@) {
        match sp_topology(s, i + "\"type\":\"topology\",\"topology\":"@.len()) {
            Some((t, j)) => Some((BroadcastMessageView::Topology { topology: t }, j)),
            None => None,
        }
    } else if at_lit(s, i, "\"type\":\"topology_ok\""@) {
        Some((BroadcastMessageView::TopologyOk, i + "\"type\":\"topology_ok\""@.len()))
    } else {
        None
    }
}


/// An encoded broadcast payload, followed by the closing braces of its
/// envelope, parses back to itself.
#[verifier::rlimit(80)]
pub proof fn lemma_broadcast_payload_round_trip(s: Seq<char>, i: int, p: BroadcastMessageView)
    requires
        0 <= i,
        i + json_broadcast_payload(p).len() < s.len(),
        forall|k: int|
            0 <= k < json_broadcast_payload(p).len() ==> s[i + k] == json_broadcast_payload(p)[k],
        s[i + json_broadcast_payload(p).len()] == '}',
    ensures
        sp_broadcast_payload(s, i) == Some((p, i + json_broadcast_payload(p).len())),
{
    reveal_strlit("\"type\":\"init\",\"node_id\":");
    reveal_strlit(",\"node_ids\":");
    reveal_strlit("\"type\":\"init_ok\"");
    reveal_strlit("\"type\":\"broadcast\",\"message\":");
    reveal_strlit("\"type\":\"broadcast_ok\"");
    reveal_strlit("\"type\":\"read\"");
    reveal_strlit("\"type\":\"read_ok\",\"messages\":");
    reveal_strlit("\"type\":\"topology\",\"topology\":");
    reveal_strlit("\"type\":\"topology_ok\"");
    let la = "\"type\":\"init\",\"node_id\":"@;
    let lnodes = ",\"node_ids\":"@;
    let lb = "\"type\":\"init_ok\""@;
    let lc = "\"type\":\"broadcast\",\"message\":"@;
    let ld = "\"type\":\"broadcast_ok\""@;
    let le = "\"type\":\"read\""@;
    let lf = "\"type\":\"read_ok\",\"messages\":"@;
    let lg = "\"type\":\"topology\",\"topology\":"@;
    let lh = "\"type\":\"topology_ok\""@;
    let enc = json_broadcast_payload(p);
    match p {
        BroadcastMessageView::Init { node_id, node_ids } => {
            let str = json_string(node_id);
            let lst = json_str_list(node_ids);
            assert(enc =~= la + (str + (lnodes + lst)));
            lemma_chars_split(s, i, la, str + (lnodes + lst));
            lemma_chars_split(s, i + la.len(), str, lnodes + lst);
            lemma_chars_split(s, i + la.len() + str.len(), lnodes, lst);
            lemma_at_lit(s, i, la);
            lemma_string_round_trip(s, i + la.len(), node_id);
            lemma_at_lit(s, i + la.len() + str.len(), lnodes);
            lemma_str_list_round_trip(s, i + la.len() + str.len() + lnodes.len(), node_ids);
        },
        BroadcastMessageView::InitOk => {
            assert(s[i + 12] == enc[12]);
            lemma_not_at_lit(s, i, la, 12, '_');
            lemma_at_lit(s, i, lb);
        },
        BroadcastMessageView::Broadcast { message } => {
            let num = json_i64(message);
            assert(enc =~= lc + num);
            lemma_chars_split(s, i, lc, num);
            assert(s[i + 8] == enc[8]);
            lemma_not_at_lit(s, i, la, 8, 'b');
            lemma_not_at_lit(s, i, lb, 8, 'b');
            lemma_at_lit(s, i, lc);
            assert(s[i + lc.len() + num.len()] == '}') by {
                assert(i + lc.len() + num.len() == i + enc.len());
            }
            assert(!is_digit('}'));
            lemma_i64_round_trip(s, i + lc.len(), message);
        },
        BroadcastMessageView::BroadcastOk => {
            assert(s[i + 8] == enc[8]);
            assert(s[i + 17] == enc[17]);
            lemma_not_at_lit(s, i, la, 8, 'b');
            lemma_not_at_lit(s, i, lb, 8, 'b');
            lemma_not_at_lit(s, i, lc, 17, '_');
            lemma_at_lit(s, i, ld);
        },
        BroadcastMessageView::Read => {
            assert(s[i + 8] == enc[8]);
            lemma_not_at_lit(s, i, la, 8, 'r');
            lemma_not_at_lit(s, i, lb, 8, 'r');
            lemma_not_at_lit(s, i, lc, 8, 'r');
            lemma_not_at_lit(s, i, ld, 8, 'r');
            lemma_at_lit(s, i, le);
        },
        BroadcastMessageView::ReadOk { messages } => {
            let lst = json_int_list(messages);
            assert(enc =~= lf + lst);
            lemma_chars_split(s, i, lf, lst);
            assert(s[i + 8] == enc[8]);
            assert(s[i + 12] == enc[12]);
            lemma_not_at_lit(s, i, la, 8, 'r');
            lemma_not_at_lit(s, i, lb, 8, 'r');
            lemma_not_at_lit(s, i, lc, 8, 'r');
            lemma_not_at_lit(s, i, ld, 8, 'r');
            lemma_not_at_lit(s, i, le, 12, '_');
            lemma_at_lit(s, i, lf);
            lemma_int_list_round_trip(s, i + lf.len(), messages);
        },
        BroadcastMessageView::Topology { topology } => {
            let obj = json_topology(topology);
            assert(enc =~= lg + obj);
            lemma_chars_split(s, i, lg, obj);
            assert(s[i + 8] == enc[8]);
            lemma_not_at_lit(s, i, la, 8, 't');
            lemma_not_at_lit(s, i, lb, 8, 't');
            lemma_not_at_lit(s, i, lc, 8, 't');
            lemma_not_at_lit(s, i, ld, 8, 't');
            lemma_not_at_lit(s, i, le, 8, 't');
            lemma_not_at_lit(s, i, lf, 8, 't');
            lemma_at_lit(s, i, lg);
            lemma_topology_round_trip(s, i + lg.len(), topology);
        },
        BroadcastMessageView::TopologyOk => {
            assert(s[i + 8] == enc[8]);
            assert(s[i + 16] == enc[16]);
            lemma_not_at_lit(s, i, la, 8, 't');
            lemma_not_at_lit(s, i, lb, 8, 't');
            lemma_not_at_lit(s, i, lc, 8, 't');
            lemma_not_at_lit(s, i, ld, 8, 't');
            lemma_not_at_lit(s, i, le, 8, 't');
            lemma_not_at_lit(s, i, lf, 8, 't');
            lemma_not_at_lit(s, i, lg, 16, '_');
            lemma_at_lit(s, i, lh);
        },
    }
}

/// The whole wire form of one broadcast-protocol envelope.
pub open spec fn json_broadcast_msg(m: MsgView<BroadcastMessageView>) -> Seq<char> {
    json_env_head(m.src, m.dest, m.msg_id, m.in_reply_to) + json_broadcast_payload(m.payload)
        + "}}"@
}

/// One whole broadcast-protocol envelope.
pub open spec fn sp_broadcast_msg(s: Seq<char>, i: int) -> Option<
    (MsgView<BroadcastMessageView>, int),
> {
    match sp_env_head(s, i) {
        Some(((src, dest, msg_id, in_reply_to), j)) => match sp_broadcast_payload(s, j) {
            Some((payload, j2)) => if at_lit(s, j2, "}}"@) {
                Some((MsgView { src, dest, msg_id, in_reply_to, payload }, j2 + 2))
            } else {
                None
            },
            None => None,
        },
        None => None,
    }
}

/// Round-trip serialization: every broadcast-protocol envelope, encoded and
/// then decoded, yields the envelope it came from.
pub proof fn lemma_broadcast_msg_round_trip(s: Seq<char>, i: int, m: MsgView<BroadcastMessageView>)
    requires
        0 <= i,
        id_in_range(m.msg_id),
        id_in_range(m.in_reply_to),
        i + json_broadcast_msg(m).len() <= s.len(),
        forall|k: int|
            0 <= k < json_broadcast_msg(m).len() ==> s[i + k] == json_broadcast_msg(m)[k],
    ensures
        sp_broadcast_msg(s, i) == Some((m, i + json_broadcast_msg(m).len())),
{
    reveal_strlit("}}");
    let head = json_env_head(m.src, m.dest, m.msg_id, m.in_reply_to);
    let pl = json_broadcast_payload(m.payload);
    let enc = json_broadcast_msg(m);
    assert(enc =~= head + (pl + "}}"@));
    lemma_chars_split(s, i, head, pl + "}}"@);
    lemma_chars_split(s, i + head.len(), pl, "}}"@);
    lemma_env_head_round_trip(s, i, m.src, m.dest, m.msg_id, m.in_reply_to);
    assert(s[i + head.len() + pl.len() + 0] == "}}"@[0]);
    assert(s[i + head.len() + pl.len()] == '}');
    lemma_broadcast_payload_round_trip(s, i + head.len(), m.payload);
    lemma_at_lit(s, i + head.len() + pl.len(), "}}"@);
    assert(sp_broadcast_msg(s, i) == Some((m, i + enc.len())));
}


// ---------------------------------------------------------------------
// The echo protocol's payloads and envelopes. The standalone processor's
// envelopes carry the same mathematical values, so this codec serves both.
// ---------------------------------------------------------------------

/// The flattened payload fields of an echo body.
pub open spec fn json_echo_payload(p: EchoMessageView) -> Seq<char> {
    match p {
        EchoMessageView::Init { node_id, node_ids } => "\"type\":\"init\",\"node_id\":"@
            + json_string(node_id) + ",\"node_ids\":"@ + json_str_list(node_ids),
        EchoMessageView::InitOk => "\"type\":\"init_ok\""@,
        EchoMessageView::EchoOk { echo } => "\"type\":\"echo_ok\",\"echo\":"@ + json_string(
            echo,
        ),
        EchoMessageView::Echo { echo } => "\"type\":\"echo\",\"echo\":"@ + json_string(echo),
    }
}

/// The flattened payload fields of an echo body, parsed by tag.
pub open spec fn sp_echo_payload(s: Seq<char>, i: int) -> Option<(EchoMessageView, int)> {
    if at_lit(s, i, "\"type\":\"init\",\"node_id\":"@) {
        match sp_string(s, i + "\"type\":\"init\",\"node_id\":"@.len()) {
            Some((nid, j)) => if at_lit(s, j, ",\"node_ids\":"@) {
                match sp_str_list(s, j + ",\"node_ids\":"@.len()) {
                    Some((ns, j2)) => Some(
                        (EchoMessageView::Init { node_id: nid, node_ids: ns }, j2),
                    ),
                    None => None,
                }
            } else {
                None
            },
            None => None,
        }
    } else if at_lit(s, i, "\"type\":\"init_ok\""@) {
        Some((EchoMessageView::InitOk, i + "\"type\":\"init_ok\""@.len()))
    } else if at_lit(s, i, "\"type\":\"echo_ok\",\"echo\":"@) {
        match sp_string(s, i + "\"type\":\"echo_ok\",\"echo\":"@.len()) {
            Some((e, j)) => Some((EchoMessageView::EchoOk { echo: e }, j)),
            None => None,
        }
    } else if at_lit(s, i, "\"type\":\"echo\",\"echo\":"@) {
        match sp_string(s, i + "\"type\":\"echo\",\"echo\":"@.len()) {
            Some((e, j)) => Some((EchoMessageView::Echo { echo: e }, j)),
            None => None,
        }
    } else {
        None
    }
}

/// An encoded echo payload parses back to itself.
#[verifier::rlimit(80)]
pub proof fn lemma_echo_payload_round_trip(s: Seq<char>, i: int, p: EchoMessageView)
    requires
        0 <= i,
        i + json_echo_payload(p).len() <= s.len(),
        forall|k: int|
            0 <= k < json_echo_payload(p).len() ==> s[i + k] == json_echo_payload(p)[k],
    ensures
        sp_echo_payload(s, i) == Some((p, i + json_echo_payload(p).len())),
{
    reveal_strlit("\"type\":\"init\",\"node_id\":");
    reveal_strlit(",\"node_ids\":");
    reveal_strlit("\"type\":\"init_ok\"");
    reveal_strlit("\"type\":\"echo_ok\",\"echo\":");
    reveal_strlit("\"type\":\"echo\",\"echo\":");
    let la = "\"type\":\"init\",\"node_id\":"@;
    let lnodes = ",\"node_ids\":"@;
    let lb = "\"type\":\"init_ok\""@;
    let leo = "\"type\":\"echo_ok\",\"echo\":"@;
    let le = "\"type\":\"echo\",\"echo\":"@;
    let enc = json_echo_payload(p);
    match p {
        EchoMessageView::Init { node_id, node_ids } => {
            let str = json_string(node_id);
            let lst = json_str_list(node_ids);
            assert(enc =~= la + (str + (lnodes + lst)));
            lemma_chars_split(s, i, la, str + (lnodes + lst));
            lemma_chars_split(s, i + la.len(), str, lnodes + lst);
            lemma_chars_split(s, i + la.len() + str.len(), lnodes, lst);
            lemma_at_lit(s, i, la);
            lemma_string_round_trip(s, i + la.len(), node_id);
            lemma_at_lit(s, i + la.len() + str.len(), lnodes);
            lemma_str_list_round_trip(s, i + la.len() + str.len() + lnodes.len(), node_ids);
        },
        EchoMessageView::InitOk => {
            assert(s[i + 12] == enc[12]);
            lemma_not_at_lit(s, i, la, 12, '_');
            lemma_at_lit(s, i, lb);
        },
        EchoMessageView::EchoOk { echo } => {
            let str = json_string(echo);
            assert(enc =~= leo + str);
            lemma_chars_split(s, i, leo, str);
            assert(s[i + 8] == enc[8]);
            lemma_not_at_lit(s, i, la, 8, 'e');
            lemma_not_at_lit(s, i, lb, 8, 'e');
            lemma_at_lit(s, i, leo);
            lemma_string_round_trip(s, i + leo.len(), echo);
        },
        EchoMessageView::Echo { echo } => {
            let str = json_string(echo);
            assert(enc =~= le + str);
            lemma_chars_split(s, i, le, str);
            assert(s[i + 8] == enc[8]);
            assert(s[i + 12] == enc[12]);
            lemma_not_at_lit(s, i, la, 8, 'e');
            lemma_not_at_lit(s, i, lb, 8, 'e');
            lemma_not_at_lit(s, i, leo, 12, '\"');
            lemma_at_lit(s, i, le);
            lemma_string_round_trip(s, i + le.len(), echo);
        },
    }
}

/// The whole wire form of one echo-protocol envelope; the standalone
/// processor's envelopes share this form.
pub open spec fn json_echo_msg(m: MsgView<EchoMessageView>) -> Seq<char> {
    json_env_head(m.src, m.dest, m.msg_id, m.in_reply_to) + json_echo_payload(m.payload) + "}}"@
}

/// One whole echo-protocol envelope.
pub open spec fn sp_echo_msg(s: Seq<char>, i: int) -> Option<(MsgView<EchoMessageView>, int)> {
    match sp_env_head(s, i) {
        Some(((src, dest, msg_id, in_reply_to), j)) => match sp_echo_payload(s, j) {
            Some((payload, j2)) => if at_lit(s, j2, "}}"@) {
                Some((MsgView { src, dest, msg_id, in_reply_to, payload }, j2 + 2))
            } else {
                None
            },
            None => None,
        },
        None => None,
    }
}

/// Round-trip serialization for the echo protocol: every envelope, encoded
/// and then decoded, yields the envelope it came from.
pub proof fn lemma_echo_msg_round_trip(s: Seq<char>, i: int, m: MsgView<EchoMessageView>)
    requires
        0 <= i,
        id_in_range(m.msg_id),
        id_in_range(m.in_reply_to),
        i + json_echo_msg(m).len() <= s.len(),
        forall|k: int| 0 <= k < json_echo_msg(m).len() ==> s[i + k] == json_echo_msg(m)[k],
    ensures
        sp_echo_msg(s, i) == Some((m, i + json_echo_msg(m).len())),
{
    reveal_strlit("}}");
    let head = json_env_head(m.src, m.dest, m.msg_id, m.in_reply_to);
    let pl = json_echo_payload(m.payload);
    let enc = json_echo_msg(m);
    assert(enc =~= head + (pl + "}}"@));
    lemma_chars_split(s, i, head, pl + "}}"@);
    lemma_chars_split(s, i + head.len(), pl, "}}"@);
    lemma_env_head_round_trip(s, i, m.src, m.dest, m.msg_id, m.in_reply_to);
    lemma_echo_payload_round_trip(s, i + head.len(), m.payload);
    lemma_at_lit(s, i + head.len() + pl.len(), "}}"@);
    assert(sp_echo_msg(s, i) == Some((m, i + enc.len())));
}

// ---------------------------------------------------------------------
// The executable encoder.
// ---------------------------------------------------------------------

/// Relies on String's FromIterator over characters: the result holds
/// exactly the given characters in order.
#[verifier::external_body]
fn chars_to_string(v: Vec<char>) -> (r: String)
    ensures
        r@ == v@,
{
    v.into_iter().collect()
}

/// The characters of a string slice, in order.
pub fn str_chars(s: &str) -> (r: Vec<char>)
    ensures
        r@ == s@,
{
    let n = s.unicode_len();
    let mut r: Vec<char> = Vec::new();
    let mut i: usize = 0;
    while i < n
        invariant
            i <= n,
            n == s@.len(),
            r@ == s@.take(i as int),
        decreases n - i,
    {
        r.push(s.get_char(i));
        proof {
            assert(s@.take(i + 1 as int) =~= s@.take(i as int).push(s@[i as int]));
        }
        i += 1;
    }
    proof {
        assert(s@.take(n as int) =~= s@);
    }
    r
}

/// Append the characters of a literal.
fn push_lit(out: &mut Vec<char>, lit: &str)
    ensures
        final(out)@ == old(out)@ + lit@,
{
    let n = lit.unicode_len();
    let mut i: usize = 0;
    while i < n
        invariant
            i <= n,
            n == lit@.len(),
            out@ == old(out)@ + lit@.take(i as int),
        decreases n - i,
    {
        out.push(lit.get_char(i));
        proof {
            assert(lit@.take(i + 1 as int) =~= lit@.take(i as int).push(lit@[i as int]));
        }
        i += 1;
    }
    proof {
        assert(lit@.take(n as int) =~= lit@);
    }
}

/// The decimal digits of `n`.
fn emit_u64(out: &mut Vec<char>, n: u64)
    ensures
        final(out)@ == old(out)@ + dec_digits(n as nat),
    decreases n,
{
    if n < 10 {
        out.push((48 + (n as u8)) as char);
        proof {
            assert(dec_digits(n as nat) =~= seq![digit_char(n as nat)]);
        }
    } else {
        emit_u64(out, n / 10);
        out.push((48 + ((n % 10) as u8)) as char);
    }
}

/// The JSON number of `v`.
fn emit_i64(out: &mut Vec<char>, v: i64)
    ensures
        final(out)@ == old(out)@ + json_i64(v),
{
    if v < 0 {
        out.push('-');
        let mag: u64 = ((-(v + 1)) as u64) + 1;
        proof {
            assert(mag as nat == (-(v as int)) as nat);
        }
        emit_u64(out, mag);
    } else {
        emit_u64(out, v as u64);
    }
}

/// `null` or a JSON number.
fn emit_opt_i64(out: &mut Vec<char>, v: &Option<i64>)
    ensures
        final(out)@ == old(out)@ + json_opt_id(crate::msg_protocol::view_of_opt_i64(*v)),
{
    match v {
        Some(x) => {
            emit_i64(out, *x);
            proof {
                assert(((*x as int) as i64) == *x);
            }
        },
        None => {
            push_lit(out, "null");
            proof {
                reveal_strlit("null");
                assert("null"@ =~= seq!['n', 'u', 'l', 'l']);
            }
        },
    }
}

/// The lower-case hexadecimal digit of `d < 16`.
fn hex_char_of(d: u32) -> (c: char)
    requires
        d < 16,
    ensures
        c == hex_char(d as nat),
{
    if d < 10 {
        (48 + (d as u8)) as char
    } else {
        (87 + (d as u8)) as char
    }
}

/// Appending one more source character extends the escaped body by that
/// character's escape.
proof fn lemma_str_body_push(t: Seq<char>, c: char)
    ensures
        json_str_body(t.push(c)) == json_str_body(t) + esc_char(c),
    decreases t.len(),
{
    if t.len() == 0 {
        assert(t.push(c).first() == c);
        assert(t.push(c).drop_first() =~= Seq::<char>::empty());
        assert(json_str_body(Seq::<char>::empty()) == Seq::<char>::empty());
        assert(json_str_body(t.push(c)) == esc_char(c) + Seq::<char>::empty());
        assert(esc_char(c) + Seq::<char>::empty() =~= esc_char(c));
        assert(json_str_body(t) == Seq::<char>::empty());
        assert(Seq::<char>::empty() + esc_char(c) =~= esc_char(c));
    } else {
        assert(t.push(c).first() == t.first());
        assert(t.push(c).drop_first() =~= t.drop_first().push(c));
        lemma_str_body_push(t.drop_first(), c);
        assert(json_str_body(t.push(c)) == esc_char(t.first()) + json_str_body(
            t.drop_first().push(c),
        ));
        assert(json_str_body(t) == esc_char(t.first()) + json_str_body(t.drop_first()));
        let a = esc_char(t.first());
        let b = json_str_body(t.drop_first());
        let d = esc_char(c);
        assert(json_str_body(t.push(c)) == a + (b + d));
        assert((a + b) + d =~= a + (b + d));
        assert(json_str_body(t) + esc_char(c) == (a + b) + d);
    }
}

/// The quoted, escaped JSON text of a string.
fn emit_string(out: &mut Vec<char>, s: &String)
    ensures
        final(out)@ == old(out)@ + json_string(s@),
{
    out.push('"');
    let st: &str = s.as_str();
    let n = st.unicode_len();
    let mut i: usize = 0;
    while i < n
        invariant
            i <= n,
            n == s@.len(),
            st@ == s@,
            out@ == old(out)@ + seq!['"'] + json_str_body(s@.take(i as int)),
        decreases n - i,
    {
        let c = st.get_char(i);
        proof {
            assert(s@.take(i + 1 as int) =~= s@.take(i as int).push(s@[i as int]));
            lemma_str_body_push(s@.take(i as int), s@[i as int]);
        }
        if c == '"' {
            out.push('\\');
            out.push('"');
        } else if c == '\\' {
            out.push('\\');
            out.push('\\');
        } else {
            let code = c as u32;
            if code < 32 {
                out.push('\\');
                out.push('u');
                out.push('0');
                out.push('0');
                out.push(hex_char_of(code / 16));
                out.push(hex_char_of(code % 16));
            } else {
                out.push(c);
            }
        }
        proof {
            assert(out@ =~= old(out)@ + seq!['"'] + json_str_body(s@.take(i + 1 as int)));
        }
        i += 1;
    }
    out.push('"');
    proof {
        assert(s@.take(n as int) =~= s@);
        assert(out@ =~= old(out)@ + json_string(s@));
    }
}

/// `null` or a quoted string.
fn emit_opt_string(out: &mut Vec<char>, s: &Option<String>)
    ensures
        final(out)@ == old(out)@ + json_opt_string(crate::msg_protocol::view_of_opt_string(*s)),
{
    match s {
        Some(x) => {
            emit_string(out, x);
        },
        None => {
            push_lit(out, "null");
            proof {
                reveal_strlit("null");
                assert("null"@ =~= seq!['n', 'u', 'l', 'l']);
            }
        },
    }
}

/// Appending one more value extends a number-list tail by `,` and its
/// number.
proof fn lemma_int_tail_push(t: Seq<i64>, v: i64)
    ensures
        json_int_list_tail(t.push(v)) == json_int_list_tail(t) + (seq![','] + json_i64(v)),
    decreases t.len(),
{
    if t.len() == 0 {
        assert(t.push(v).first() == v);
        assert(t.push(v).drop_first() =~= Seq::<i64>::empty());
        assert(json_int_list_tail(Seq::<i64>::empty()) == Seq::<char>::empty());
        let d = seq![','] + json_i64(v);
        assert(json_int_list_tail(t.push(v)) == d + Seq::<char>::empty());
        assert(d + Seq::<char>::empty() =~= d);
        assert(json_int_list_tail(t) == Seq::<char>::empty());
        assert(Seq::<char>::empty() + d =~= d);
    } else {
        assert(t.push(v).first() == t.first());
        assert(t.push(v).drop_first() =~= t.drop_first().push(v));
        lemma_int_tail_push(t.drop_first(), v);
        assert(json_int_list_tail(t.push(v)) == seq![','] + json_i64(t.first())
            + json_int_list_tail(t.drop_first().push(v)));
        assert(json_int_list_tail(t) == seq![','] + json_i64(t.first()) + json_int_list_tail(
            t.drop_first(),
        ));
        let a = seq![','] + json_i64(t.first());
        let b = json_int_list_tail(t.drop_first());
        let d = seq![','] + json_i64(v);
        assert(json_int_list_tail(t.push(v)) == a + (b + d));
        assert((a + b) + d =~= a + (b + d));
        assert(json_int_list_tail(t) + d == (a + b) + d);
    }
}

/// The JSON list of a value set.
fn emit_int_list(out: &mut Vec<char>, vals: &crate::collections::IntSet)
    ensures
        final(out)@ == old(out)@ + json_int_list(vals@),
{
    let n = vals.items.len();
    if n == 0 {
        out.push('[');
        out.push(']');
        proof {
            assert(out@ =~= old(out)@ + json_int_list(vals@));
        }
    } else {
        out.push('[');
        emit_i64(out, vals.items[0]);
        let mut t: usize = 1;
        while t < n
            invariant
                1 <= t <= n,
                n == vals@.len(),
                out@ == old(out)@ + seq!['['] + json_i64(vals@.first()) + json_int_list_tail(
                    vals@.subrange(1, t as int),
                ),
            decreases n - t,
        {
            proof {
                assert(vals@.subrange(1, t + 1 as int) =~= vals@.subrange(1, t as int).push(
                    vals@[t as int],
                ));
                lemma_int_tail_push(vals@.subrange(1, t as int), vals@[t as int]);
            }
            out.push(',');
            emit_i64(out, vals.items[t]);
            proof {
                assert(out@ =~= old(out)@ + seq!['['] + json_i64(vals@.first())
                    + json_int_list_tail(vals@.subrange(1, t + 1 as int)));
            }
            t += 1;
        }
        out.push(']');
        proof {
            assert(vals@.subrange(1, n as int) =~= vals@.drop_first());
            assert(out@ =~= old(out)@ + json_int_list(vals@));
        }
    }
}

/// Appending one more string extends a string-list tail by `,` and its
/// quoted text.
proof fn lemma_str_tail_push(t: Seq<Seq<char>>, v: Seq<char>)
    ensures
        json_str_list_tail(t.push(v)) == json_str_list_tail(t) + (seq![','] + json_string(v)),
    decreases t.len(),
{
    if t.len() == 0 {
        assert(t.push(v).first() == v);
        assert(t.push(v).drop_first() =~= Seq::<Seq<char>>::empty());
        assert(json_str_list_tail(Seq::<Seq<char>>::empty()) == Seq::<char>::empty());
        let d = seq![','] + json_string(v);
        assert(json_str_list_tail(t.push(v)) == d + Seq::<char>::empty());
        assert(d + Seq::<char>::empty() =~= d);
        assert(json_str_list_tail(t) == Seq::<char>::empty());
        assert(Seq::<char>::empty() + d =~= d);
    } else {
        assert(t.push(v).first() == t.first());
        assert(t.push(v).drop_first() =~= t.drop_first().push(v));
        lemma_str_tail_push(t.drop_first(), v);
        assert(json_str_list_tail(t.push(v)) == seq![','] + json_string(t.first())
            + json_str_list_tail(t.drop_first().push(v)));
        assert(json_str_list_tail(t) == seq![','] + json_string(t.first()) + json_str_list_tail(
            t.drop_first(),
        ));
        let a = seq![','] + json_string(t.first());
        let b = json_str_list_tail(t.drop_first());
        let d = seq![','] + json_string(v);
        assert(json_str_list_tail(t.push(v)) == a + (b + d));
        assert((a + b) + d =~= a + (b + d));
        assert(json_str_list_tail(t) + d == (a + b) + d);
    }
}

/// The JSON list of a set of node-id strings.
fn emit_str_list(out: &mut Vec<char>, items: &Vec<String>)
    ensures
        final(out)@ == old(out)@ + json_str_list(items@.map_values(|x: String| x@)),
{
    let ghost vals_view = items@.map_values(|x: String| x@);
    let n = items.len();
    if n == 0 {
        out.push('[');
        out.push(']');
        proof {
            assert(out@ =~= old(out)@ + json_str_list(vals_view));
        }
    } else {
        out.push('[');
        emit_string(out, &items[0]);
        let mut t: usize = 1;
        while t < n
            invariant
                1 <= t <= n,
                n == vals_view.len(),
                vals_view == items@.map_values(|x: String| x@),
                out@ == old(out)@ + seq!['['] + json_string(vals_view.first())
                    + json_str_list_tail(vals_view.subrange(1, t as int)),
            decreases n - t,
        {
            proof {
                assert(vals_view.subrange(1, t + 1 as int) =~= vals_view.subrange(
                    1,
                    t as int,
                ).push(vals_view[t as int]));
                lemma_str_tail_push(vals_view.subrange(1, t as int), vals_view[t as int]);
            }
            out.push(',');
            emit_string(out, &items[t]);
            proof {
                assert(out@ =~= old(out)@ + seq!['['] + json_string(vals_view.first())
                    + json_str_list_tail(vals_view.subrange(1, t + 1 as int)));
            }
            t += 1;
        }
        out.push(']');
        proof {
            assert(vals_view.subrange(1, n as int) =~= vals_view.drop_first());
            assert(out@ =~= old(out)@ + json_str_list(vals_view));
        }
    }
}

/// Appending one more entry extends a topology tail by `,` and that entry.
proof fn lemma_topo_tail_push(t: Seq<(Seq<char>, Seq<Seq<char>>)>, e: (Seq<char>, Seq<Seq<char>>))
    ensures
        json_topo_tail(t.push(e)) == json_topo_tail(t) + (seq![','] + json_topo_entry(e)),
    decreases t.len(),
{
    if t.len() == 0 {
        assert(t.push(e).first() == e);
        assert(t.push(e).drop_first() =~= Seq::<(Seq<char>, Seq<Seq<char>>)>::empty());
        assert(json_topo_tail(Seq::<(Seq<char>, Seq<Seq<char>>)>::empty())
            == Seq::<char>::empty());
        let d = seq![','] + json_topo_entry(e);
        assert(json_topo_tail(t.push(e)) == d + Seq::<char>::empty());
        assert(d + Seq::<char>::empty() =~= d);
        assert(json_topo_tail(t) == Seq::<char>::empty());
        assert(Seq::<char>::empty() + d =~= d);
    } else {
        assert(t.push(e).first() == t.first());
        assert(t.push(e).drop_first() =~= t.drop_first().push(e));
        lemma_topo_tail_push(t.drop_first(), e);
        assert(json_topo_tail(t.push(e)) == seq![','] + json_topo_entry(t.first())
            + json_topo_tail(t.drop_first().push(e)));
        assert(json_topo_tail(t) == seq![','] + json_topo_entry(t.first()) + json_topo_tail(
            t.drop_first(),
        ));
        let a = seq![','] + json_topo_entry(t.first());
        let b = json_topo_tail(t.drop_first());
        let d = seq![','] + json_topo_entry(e);
        assert(json_topo_tail(t.push(e)) == a + (b + d));
        assert((a + b) + d =~= a + (b + d));
        assert(json_topo_tail(t) + d == (a + b) + d);
    }
}

/// The JSON object of a topology mapping.
fn emit_topology(out: &mut Vec<char>, topo: &crate::collections::TopologyMap)
    ensures
        final(out)@ == old(out)@ + json_topology(topo@),
{
    let n = topo.entries.len();
    if n == 0 {
        out.push('{');
        out.push('}');
        proof {
            assert(out@ =~= old(out)@ + json_topology(topo@));
        }
    } else {
        out.push('{');
        emit_string(out, &topo.entries[0].0);
        out.push(':');
        emit_str_list(out, &topo.entries[0].1.items);
        proof {
            assert(json_topo_entry(topo@.first()) =~= json_string(topo@.first().0) + seq![':']
                + json_str_list(topo@.first().1));
            assert(out@ =~= old(out)@ + seq!['{'] + json_topo_entry(topo@.first())
                + json_topo_tail(topo@.subrange(1, 1)));
        }
        let mut t: usize = 1;
        while t < n
            invariant
                1 <= t <= n,
                n == topo@.len(),
                out@ == old(out)@ + seq!['{'] + json_topo_entry(topo@.first()) + json_topo_tail(
                    topo@.subrange(1, t as int),
                ),
            decreases n - t,
        {
            proof {
                assert(topo@.subrange(1, t + 1 as int) =~= topo@.subrange(1, t as int).push(
                    topo@[t as int],
                ));
                lemma_topo_tail_push(topo@.subrange(1, t as int), topo@[t as int]);
            }
            out.push(',');
            emit_string(out, &topo.entries[t].0);
            out.push(':');
            emit_str_list(out, &topo.entries[t].1.items);
            proof {
                assert(json_topo_entry(topo@[t as int]) =~= json_string(topo@[t as int].0)
                    + seq![':'] + json_str_list(topo@[t as int].1));
                assert(out@ =~= old(out)@ + seq!['{'] + json_topo_entry(topo@.first())
                    + json_topo_tail(topo@.subrange(1, t + 1 as int)));
            }
            t += 1;
        }
        out.push('}');
        proof {
            assert(topo@.subrange(1, n as int) =~= topo@.drop_first());
            assert(out@ =~= old(out)@ + json_topology(topo@));
        }
    }
}

/// The flattened payload fields of one broadcast body.
fn emit_broadcast_payload(out: &mut Vec<char>, p: &crate::broadcast::BroadcastMessage)
    ensures
        final(out)@ == old(out)@ + json_broadcast_payload(p@),
{
    match p {
        crate::broadcast::BroadcastMessage::Init { node_id, node_ids } => {
            push_lit(out, "\"type\":\"init\",\"node_id\":");
            emit_string(out, node_id);
            push_lit(out, ",\"node_ids\":");
            emit_str_list(out, &node_ids.items);
            proof {
                assert(node_ids@ == node_ids.items@.map_values(|x: String| x@));
            }
            proof {
                assert(out@ =~= old(out)@ + json_broadcast_payload(p@));
            }
        },
        crate::broadcast::BroadcastMessage::InitOk {} => {
            push_lit(out, "\"type\":\"init_ok\"");
        },
        crate::broadcast::BroadcastMessage::Broadcast { message } => {
            push_lit(out, "\"type\":\"broadcast\",\"message\":");
            emit_i64(out, *message);
            proof {
                assert(out@ =~= old(out)@ + json_broadcast_payload(p@));
            }
        },
        crate::broadcast::BroadcastMessage::BroadcastOk {} => {
            push_lit(out, "\"type\":\"broadcast_ok\"");
        },
        crate::broadcast::BroadcastMessage::Read {} => {
            push_lit(out, "\"type\":\"read\"");
        },
        crate::broadcast::BroadcastMessage::ReadOk { messages } => {
            push_lit(out, "\"type\":\"read_ok\",\"messages\":");
            emit_int_list(out, messages);
            proof {
                assert(out@ =~= old(out)@ + json_broadcast_payload(p@));
            }
        },
        crate::broadcast::BroadcastMessage::Topology { topology } => {
            push_lit(out, "\"type\":\"topology\",\"topology\":");
            emit_topology(out, topology);
            proof {
                assert(out@ =~= old(out)@ + json_broadcast_payload(p@));
            }
        },
        crate::broadcast::BroadcastMessage::TopologyOk {} => {
            push_lit(out, "\"type\":\"topology_ok\"");
        },
    }
}

/// The common head of every envelope.
fn emit_env_head<T>(out: &mut Vec<char>, m: &crate::msg_protocol::Message<T>)
    ensures
        final(out)@ == old(out)@ + json_env_head(
            crate::msg_protocol::view_of_opt_string(m.src),
            crate::msg_protocol::view_of_opt_string(m.dest),
            crate::msg_protocol::view_of_opt_i64(m.body.msg_id),
            crate::msg_protocol::view_of_opt_i64(m.body.in_reply_to),
        ),
{
    push_lit(out, "{\"src\":");
    emit_opt_string(out, &m.src);
    push_lit(out, ",\"dest\":");
    emit_opt_string(out, &m.dest);
    push_lit(out, ",\"body\":{\"msg_id\":");
    emit_opt_i64(out, &m.body.msg_id);
    push_lit(out, ",\"in_reply_to\":");
    emit_opt_i64(out, &m.body.in_reply_to);
    push_lit(out, ",");
    proof {
        assert(out@ =~= old(out)@ + json_env_head(
            crate::msg_protocol::view_of_opt_string(m.src),
            crate::msg_protocol::view_of_opt_string(m.dest),
            crate::msg_protocol::view_of_opt_i64(m.body.msg_id),
            crate::msg_protocol::view_of_opt_i64(m.body.in_reply_to),
        ));
    }
}

/// The wire text of one broadcast-protocol envelope.
pub fn encode_broadcast_message(m: &crate::msg_protocol::Message<
    crate::broadcast::BroadcastMessage,
>) -> (r: String)
    ensures
        r@ == json_broadcast_msg(m@),
{
    let mut out: Vec<char> = Vec::new();
    emit_env_head(&mut out, m);
    emit_broadcast_payload(&mut out, &m.body.body);
    push_lit(&mut out, "}}");
    proof {
        assert(out@ =~= json_broadcast_msg(m@));
    }
    chars_to_string(out)
}

// ---------------------------------------------------------------------
// The executable decoder, proved to return exactly what the parsing spec
// functions return.
// ---------------------------------------------------------------------

/// Match a literal at position `i`.
fn p_lit(s: &Vec<char>, i: usize, lit: &str) -> (r: Option<usize>)
    ensures
        match r {
            Some(j) => at_lit(s@, i as int, lit@) && j as int == i + lit@.len(),
            None => !at_lit(s@, i as int, lit@),
        },
{
    let n = lit.unicode_len();
    if i > s.len() || s.len() - i < n {
        proof {
            if at_lit(s@, i as int, lit@) {
                assert(i + lit@.len() <= s@.len());
            }
        }
        return None;
    }
    let mut k: usize = 0;
    while k < n
        invariant
            k <= n,
            n == lit@.len(),
            i + n <= s@.len(),
            s@.len() == s.len(),
            forall|l: int| 0 <= l < k ==> s@[i + l] == lit@[l],
        decreases n - k,
    {
        if !(s[i + k] == lit.get_char(k)) {
            proof {
                lemma_not_at_lit(s@, i as int, lit@, k as int, s@[i + k]);
            }
            return None;
        }
        k += 1;
    }
    proof {
        lemma_at_lit(s@, i as int, lit@);
    }
    Some(i + n)
}

/// Accumulate decimal digits into a `u64`.
fn p_digits(s: &Vec<char>, i: usize, acc: u64) -> (r: Option<(u64, usize)>)
    requires
        i <= s.len(),
    ensures
        match r {
            Some((v, j)) => sp_digits(s@, i as int, acc) == Some((v, j as int)) && j <= s@.len(),
            None => sp_digits(s@, i as int, acc) is None,
        },
    decreases s.len() - i,
{
    if i < s.len() {
        let c = s[i];
        if '0' <= c && c <= '9' {
            let d = (c as u32 - 48) as u64;
            proof {
                assert(d == digit_val(c));
                let md = (u64::MAX - d) as int;
                assert(md == 10 * (md / 10) + md % 10 && 0 <= md % 10 < 10)
                    by (nonlinear_arith)
                    requires
                        md >= 0,
                ;
            }
            if acc > (u64::MAX - d) / 10 {
                proof {
                    assert(acc as nat * 10 + digit_val(c) > u64::MAX as nat);
                }
                None
            } else {
                proof {
                    assert(acc as nat * 10 + digit_val(c) <= u64::MAX as nat);
                }
                p_digits(s, i + 1, acc * 10 + d)
            }
        } else {
            Some((acc, i))
        }
    } else {
        Some((acc, i))
    }
}

/// An unsigned number.
fn p_u64(s: &Vec<char>, i: usize) -> (r: Option<(u64, usize)>)
    requires
        i <= s.len(),
    ensures
        match r {
            Some((v, j)) => sp_u64(s@, i as int) == Some((v, j as int)) && j <= s@.len(),
            None => sp_u64(s@, i as int) is None,
        },
{
    if i < s.len() {
        let c = s[i];
        if '0' <= c && c <= '9' {
            p_digits(s, i, 0)
        } else {
            None
        }
    } else {
        None
    }
}

/// A signed number.
fn p_i64(s: &Vec<char>, i: usize) -> (r: Option<(i64, usize)>)
    requires
        i <= s.len(),
    ensures
        match r {
            Some((v, j)) => sp_i64(s@, i as int) == Some((v, j as int)) && j <= s@.len(),
            None => sp_i64(s@, i as int) is None,
        },
{
    if i < s.len() && s[i] == '-' {
        match p_u64(s, i + 1) {
            Some((m, j)) => {
                if m <= 9223372036854775807u64 {
                    proof {
                        assert(((-(m as int)) as i64) as int == -(m as int));
                    }
                    Some((-(m as i64), j))
                } else if m == 9223372036854775808u64 {
                    Some((i64::MIN, j))
                } else {
                    None
                }
            },
            None => None,
        }
    } else {
        match p_u64(s, i) {
            Some((m, j)) => {
                if m <= i64::MAX as u64 {
                    Some((m as i64, j))
                } else {
                    None
                }
            },
            None => None,
        }
    }
}

/// `null` or a signed number.
fn p_opt_i64(s: &Vec<char>, i: usize) -> (r: Option<(Option<i64>, usize)>)
    requires
        i <= s.len(),
    ensures
        match r {
            Some((v, j)) => sp_opt_i64(s@, i as int) == Some((v, j as int)) && j <= s@.len(),
            None => sp_opt_i64(s@, i as int) is None,
        },
{
    proof {
        reveal_strlit("null");
        assert("null"@ =~= seq!['n', 'u', 'l', 'l']);
    }
    match p_lit(s, i, "null") {
        Some(j) => Some((None, j)),
        None => match p_i64(s, i) {
            Some((v, j)) => Some((Some(v), j)),
            None => None,
        },
    }
}

/// The body of a quoted string, to just past the closing quote.
fn p_str_body(s: &Vec<char>, i: usize) -> (r: Option<(Vec<char>, usize)>)
    requires
        i <= s.len(),
    ensures
        match r {
            Some((v, j)) => sp_str_body(s@, i as int) == Some((v@, j as int)) && j <= s@.len(),
            None => sp_str_body(s@, i as int) is None,
        },
    decreases s.len() - i,
{
    if i >= s.len() {
        return None;
    }
    let c = s[i];
    if c == '"' {
        let empty: Vec<char> = Vec::new();
        proof {
            assert(empty@ =~= Seq::<char>::empty());
        }
        Some((empty, i + 1))
    } else if c == '\\' {
        if i + 1 >= s.len() {
            None
        } else {
            let c2 = s[i + 1];
            if c2 == '"' {
                match p_str_body(s, i + 2) {
                    Some((mut tail, j)) => {
                        let ghost t0 = tail@;
                        tail.insert(0, '"');
                        proof {
                            assert(tail@ =~= seq!['"'] + t0);
                        }
                        Some((tail, j))
                    },
                    None => None,
                }
            } else if c2 == '\\' {
                match p_str_body(s, i + 2) {
                    Some((mut tail, j)) => {
                        let ghost t0 = tail@;
                        tail.insert(0, '\\');
                        proof {
                            assert(tail@ =~= seq!['\\'] + t0);
                        }
                        Some((tail, j))
                    },
                    None => None,
                }
            } else if c2 == 'u' {
                if s.len() - i >= 6 && s[i + 2] == '0' && s[i + 3] == '0' && is_hex_char(s[i + 4])
                    && is_hex_char(s[i + 5]) {
                    let hv = hex_val_of(s[i + 4]) * 16 + hex_val_of(s[i + 5]);
                    let dc = (hv as u8) as char;
                    proof {
                        assert(dc == ((hex_val(s@[i + 4]) * 16 + hex_val(s@[i + 5])) as u8) as char);
                    }
                    match p_str_body(s, i + 6) {
                        Some((mut tail, j)) => {
                            let ghost t0 = tail@;
                            tail.insert(0, dc);
                            proof {
                                assert(tail@ =~= seq![dc] + t0);
                            }
                            Some((tail, j))
                        },
                        None => None,
                    }
                } else {
                    None
                }
            } else {
                None
            }
        }
    } else {
        match p_str_body(s, i + 1) {
            Some((mut tail, j)) => {
                let ghost t0 = tail@;
                tail.insert(0, c);
                proof {
                    assert(tail@ =~= seq![c] + t0);
                }
                Some((tail, j))
            },
            None => None,
        }
    }
}

/// Whether the character is a lower-case hexadecimal digit.
fn is_hex_char(c: char) -> (b: bool)
    ensures
        b == is_hex(c),
{
    ('0' <= c && c <= '9') || ('a' <= c && c <= 'f')
}

/// The value of a hexadecimal digit.
fn hex_val_of(c: char) -> (d: u32)
    requires
        is_hex(c),
    ensures
        d as nat == hex_val(c),
        d < 16,
{
    if '0' <= c && c <= '9' {
        c as u32 - 48
    } else {
        c as u32 - 87
    }
}

/// A quoted string.
fn p_string(s: &Vec<char>, i: usize) -> (r: Option<(String, usize)>)
    requires
        i <= s.len(),
    ensures
        match r {
            Some((v, j)) => sp_string(s@, i as int) == Some((v@, j as int)) && j <= s@.len(),
            None => sp_string(s@, i as int) is None,
        },
{
    if i < s.len() && s[i] == '"' {
        match p_str_body(s, i + 1) {
            Some((v, j)) => Some((chars_to_string(v), j)),
            None => None,
        }
    } else {
        None
    }
}

/// `null` or a quoted string.
fn p_opt_string(s: &Vec<char>, i: usize) -> (r: Option<(Option<String>, usize)>)
    requires
        i <= s.len(),
    ensures
        match r {
            Some((v, j)) => sp_opt_string(s@, i as int) == Some(
                (crate::msg_protocol::view_of_opt_string(v), j as int),
            ) && j <= s@.len(),
            None => sp_opt_string(s@, i as int) is None,
        },
{
    proof {
        reveal_strlit("null");
        assert("null"@ =~= seq!['n', 'u', 'l', 'l']);
    }
    match p_lit(s, i, "null") {
        Some(j) => Some((None, j)),
        None => match p_string(s, i) {
            Some((v, j)) => Some((Some(v), j)),
            None => None,
        },
    }
}

/// The continuation of a number list.
fn p_int_list_rest(s: &Vec<char>, j: usize, acc: Vec<i64>) -> (r: Option<(Vec<i64>, usize)>)
    requires
        j <= s.len(),
    ensures
        match r {
            Some((v, j2)) => sp_int_list_rest(s@, j as int, acc@) == Some((v@, j2 as int)) && j2
                <= s@.len(),
            None => sp_int_list_rest(s@, j as int, acc@) is None,
        },
    decreases s.len() - j,
{
    if j >= s.len() {
        None
    } else if s[j] == ']' {
        Some((acc, j + 1))
    } else if s[j] == ',' {
        match p_i64(s, j + 1) {
            Some((v, j2)) => {
                if j < j2 {
                    let mut acc2 = acc;
                    let ghost a0 = acc2@;
                    acc2.push(v);
                    proof {
                        assert(acc2@ =~= a0.push(v));
                    }
                    p_int_list_rest(s, j2, acc2)
                } else {
                    None
                }
            },
            None => None,
        }
    } else {
        None
    }
}

/// A JSON list of numbers, as a value set.
fn p_int_list(s: &Vec<char>, i: usize) -> (r: Option<(crate::collections::IntSet, usize)>)
    requires
        i <= s.len(),
    ensures
        match r {
            Some((v, j)) => sp_int_list(s@, i as int) == Some((v@, j as int)) && j <= s@.len(),
            None => sp_int_list(s@, i as int) is None,
        },
{
    if i < s.len() && s[i] == '[' {
        if i + 1 < s.len() && s[i + 1] == ']' {
            let empty: Vec<i64> = Vec::new();
            proof {
                assert(empty@ =~= Seq::<i64>::empty());
            }
            Some((crate::collections::IntSet { items: empty }, i + 2))
        } else {
            match p_i64(s, i + 1) {
                Some((v, j)) => {
                    let mut acc: Vec<i64> = Vec::new();
                    acc.push(v);
                    proof {
                        assert(acc@ =~= seq![v]);
                    }
                    match p_int_list_rest(s, j, acc) {
                        Some((items, j2)) => Some(
                            (crate::collections::IntSet { items }, j2),
                        ),
                        None => None,
                    }
                },
                None => None,
            }
        }
    } else {
        None
    }
}

/// The continuation of a string list.
fn p_str_list_rest(s: &Vec<char>, j: usize, acc: Vec<String>) -> (r: Option<(Vec<String>, usize)>)
    requires
        j <= s.len(),
    ensures
        match r {
            Some((v, j2)) => sp_str_list_rest(s@, j as int, acc@.map_values(|x: String| x@))
                == Some((v@.map_values(|x: String| x@), j2 as int)) && j2 <= s@.len(),
            None => sp_str_list_rest(s@, j as int, acc@.map_values(|x: String| x@)) is None,
        },
    decreases s.len() - j,
{
    if j >= s.len() {
        None
    } else if s[j] == ']' {
        Some((acc, j + 1))
    } else if s[j] == ',' {
        match p_string(s, j + 1) {
            Some((v, j2)) => {
                if j < j2 {
                    let mut acc2 = acc;
                    let ghost a0 = acc2@.map_values(|x: String| x@);
                    let ghost vv = v@;
                    acc2.push(v);
                    proof {
                        assert(acc2@.map_values(|x: String| x@) =~= a0.push(vv));
                    }
                    p_str_list_rest(s, j2, acc2)
                } else {
                    None
                }
            },
            None => None,
        }
    } else {
        None
    }
}

/// A JSON list of strings, as a node-id set.
fn p_str_list(s: &Vec<char>, i: usize) -> (r: Option<(crate::collections::StringSet, usize)>)
    requires
        i <= s.len(),
    ensures
        match r {
            Some((v, j)) => sp_str_list(s@, i as int) == Some((v@, j as int)) && j <= s@.len(),
            None => sp_str_list(s@, i as int) is None,
        },
{
    if i < s.len() && s[i] == '[' {
        if i + 1 < s.len() && s[i + 1] == ']' {
            let empty: Vec<String> = Vec::new();
            let r = crate::collections::StringSet { items: empty };
            proof {
                assert(r@ =~= Seq::<Seq<char>>::empty());
            }
            Some((r, i + 2))
        } else {
            match p_string(s, i + 1) {
                Some((v, j)) => {
                    let mut acc: Vec<String> = Vec::new();
                    let ghost vv = v@;
                    acc.push(v);
                    proof {
                        assert(acc@.map_values(|x: String| x@) =~= seq![vv]);
                    }
                    match p_str_list_rest(s, j, acc) {
                        Some((items, j2)) => Some(
                            (crate::collections::StringSet { items }, j2),
                        ),
                        None => None,
                    }
                },
                None => None,
            }
        }
    } else {
        None
    }
}

/// One topology entry.
fn p_topo_entry(s: &Vec<char>, i: usize) -> (r: Option<
    ((String, crate::collections::StringSet), usize),
>)
    requires
        i <= s.len(),
    ensures
        match r {
            Some(((k, v), j)) => sp_topo_entry(s@, i as int) == Some(((k@, v@), j as int)) && j
                <= s@.len(),
            None => sp_topo_entry(s@, i as int) is None,
        },
{
    match p_string(s, i) {
        Some((k, j)) => {
            if j < s.len() && s[j] == ':' {
                match p_str_list(s, j + 1) {
                    Some((v, j2)) => Some(((k, v), j2)),
                    None => None,
                }
            } else {
                None
            }
        },
        None => None,
    }
}

/// The continuation of a topology object.
fn p_topo_rest(s: &Vec<char>, j: usize, acc: Vec<(String, crate::collections::StringSet)>) -> (r:
    Option<(Vec<(String, crate::collections::StringSet)>, usize)>)
    requires
        j <= s.len(),
    ensures
        match r {
            Some((v, j2)) => sp_topo_rest(
                s@,
                j as int,
                acc@.map_values(|e: (String, crate::collections::StringSet)| (e.0@, e.1@)),
            ) == Some(
                (v@.map_values(|e: (String, crate::collections::StringSet)| (e.0@, e.1@)), j2 as int),
            ) && j2 <= s@.len(),
            None => sp_topo_rest(
                s@,
                j as int,
                acc@.map_values(|e: (String, crate::collections::StringSet)| (e.0@, e.1@)),
            ) is None,
        },
    decreases s.len() - j,
{
    if j >= s.len() {
        None
    } else if s[j] == '}' {
        Some((acc, j + 1))
    } else if s[j] == ',' {
        match p_topo_entry(s, j + 1) {
            Some(((k, v), j2)) => {
                if j < j2 {
                    let mut acc2 = acc;
                    let ghost a0 = acc2@.map_values(
                        |e: (String, crate::collections::StringSet)| (e.0@, e.1@),
                    );
                    let ghost kv = (k@, v@);
                    acc2.push((k, v));
                    proof {
                        assert(acc2@.map_values(
                            |e: (String, crate::collections::StringSet)| (e.0@, e.1@),
                        ) =~= a0.push(kv));
                    }
                    p_topo_rest(s, j2, acc2)
                } else {
                    None
                }
            },
            None => None,
        }
    } else {
        None
    }
}

/// A JSON topology object.
fn p_topology(s: &Vec<char>, i: usize) -> (r: Option<(crate::collections::TopologyMap, usize)>)
    requires
        i <= s.len(),
    ensures
        match r {
            Some((v, j)) => sp_topology(s@, i as int) == Some((v@, j as int)) && j <= s@.len(),
            None => sp_topology(s@, i as int) is None,
        },
{
    if i < s.len() && s[i] == '{' {
        if i + 1 < s.len() && s[i + 1] == '}' {
            let empty: Vec<(String, crate::collections::StringSet)> = Vec::new();
            let r = crate::collections::TopologyMap { entries: empty };
            proof {
                assert(r@ =~= Seq::<(Seq<char>, Seq<Seq<char>>)>::empty());
            }
            Some((r, i + 2))
        } else {
            match p_topo_entry(s, i + 1) {
                Some(((k, v), j)) => {
                    let mut acc: Vec<(String, crate::collections::StringSet)> = Vec::new();
                    let ghost kv = (k@, v@);
                    acc.push((k, v));
                    proof {
                        assert(acc@.map_values(
                            |e: (String, crate::collections::StringSet)| (e.0@, e.1@),
                        ) =~= seq![kv]);
                    }
                    match p_topo_rest(s, j, acc) {
                        Some((entries, j2)) => Some(
                            (crate::collections::TopologyMap { entries }, j2),
                        ),
                        None => None,
                    }
                },
                None => None,
            }
        }
    } else {
        None
    }
}

/// The flattened payload fields of a broadcast body.
fn p_broadcast_payload(s: &Vec<char>, i: usize) -> (r: Option<
    (crate::broadcast::BroadcastMessage, usize),
>)
    requires
        i <= s.len(),
    ensures
        match r {
            Some((v, j)) => sp_broadcast_payload(s@, i as int) == Some((v@, j as int)) && j
                <= s@.len(),
            None => sp_broadcast_payload(s@, i as int) is None,
        },
{
    if let Some(j) = p_lit(s, i, "\"type\":\"init\",\"node_id\":") {
        match p_string(s, j) {
            Some((nid, j2)) => {
                if let Some(j3) = p_lit(s, j2, ",\"node_ids\":") {
                    match p_str_list(s, j3) {
                        Some((ns, j4)) => Some(
                            (
                                crate::broadcast::BroadcastMessage::Init {
                                    node_id: nid,
                                    node_ids: ns,
                                },
                                j4,
                            ),
                        ),
                        None => None,
                    }
                } else {
                    None
                }
            },
            None => None,
        }
    } else if let Some(j) = p_lit(s, i, "\"type\":\"init_ok\"") {
        Some((crate::broadcast::BroadcastMessage::InitOk {}, j))
    } else if let Some(j) = p_lit(s, i, "\"type\":\"broadcast\",\"message\":") {
        match p_i64(s, j) {
            Some((v, j2)) => Some(
                (crate::broadcast::BroadcastMessage::Broadcast { message: v }, j2),
            ),
            None => None,
        }
    } else if let Some(j) = p_lit(s, i, "\"type\":\"broadcast_ok\"") {
        Some((crate::broadcast::BroadcastMessage::BroadcastOk {}, j))
    } else if let Some(j) = p_lit(s, i, "\"type\":\"read\"") {
        Some((crate::broadcast::BroadcastMessage::Read {}, j))
    } else if let Some(j) = p_lit(s, i, "\"type\":\"read_ok\",\"messages\":") {
        match p_int_list(s, j) {
            Some((vs, j2)) => Some(
                (crate::broadcast::BroadcastMessage::ReadOk { messages: vs }, j2),
            ),
            None => None,
        }
    } else if let Some(j) = p_lit(s, i, "\"type\":\"topology\",\"topology\":") {
        match p_topology(s, j) {
            Some((t, j2)) => Some(
                (crate::broadcast::BroadcastMessage::Topology { topology: t }, j2),
            ),
            None => None,
        }
    } else if let Some(j) = p_lit(s, i, "\"type\":\"topology_ok\"") {
        Some((crate::broadcast::BroadcastMessage::TopologyOk {}, j))
    } else {
        None
    }
}

/// The common head of every envelope.
fn p_env_head(s: &Vec<char>, i: usize) -> (r: Option<
    ((Option<String>, Option<String>, Option<i64>, Option<i64>), usize),
>)
    requires
        i <= s.len(),
    ensures
        match r {
            Some(((src, dest, mi, ir), j)) => sp_env_head(s@, i as int) == Some(
                (
                    (
                        crate::msg_protocol::view_of_opt_string(src),
                        crate::msg_protocol::view_of_opt_string(dest),
                        crate::msg_protocol::view_of_opt_i64(mi),
                        crate::msg_protocol::view_of_opt_i64(ir),
                    ),
                    j as int,
                ),
            ) && j <= s@.len(),
            None => sp_env_head(s@, i as int) is None,
        },
{
    proof {
        reveal_strlit(",");
    }
    if let Some(j0) = p_lit(s, i, "{\"src\":") {
        match p_opt_string(s, j0) {
            Some((src, j1)) => {
                if let Some(j1b) = p_lit(s, j1, ",\"dest\":") {
                    match p_opt_string(s, j1b) {
                        Some((dest, j2)) => {
                            if let Some(j2b) = p_lit(s, j2, ",\"body\":{\"msg_id\":") {
                                match p_opt_i64(s, j2b) {
                                    Some((mi, j3)) => {
                                        if let Some(j3b) = p_lit(s, j3, ",\"in_reply_to\":") {
                                            match p_opt_i64(s, j3b) {
                                                Some((ir, j4)) => {
                                                    if let Some(j5) = p_lit(s, j4, ",") {
                                                        Some(((src, dest, mi, ir), j5))
                                                    } else {
                                                        None
                                                    }
                                                },
                                                None => None,
                                            }
                                        } else {
                                            None
                                        }
                                    },
                                    None => None,
                                }
                            } else {
                                None
                            }
                        },
                        None => None,
                    }
                } else {
                    None
                }
            },
            None => None,
        }
    } else {
        None
    }
}

/// One whole broadcast-protocol envelope.
fn p_broadcast_msg(s: &Vec<char>, i: usize) -> (r: Option<
    (crate::msg_protocol::Message<crate::broadcast::BroadcastMessage>, usize),
>)
    requires
        i <= s.len(),
    ensures
        match r {
            Some((m, j)) => sp_broadcast_msg(s@, i as int) == Some((m@, j as int)) && j
                <= s@.len(),
            None => sp_broadcast_msg(s@, i as int) is None,
        },
{
    proof {
        reveal_strlit("}}");
    }
    match p_env_head(s, i) {
        Some(((src, dest, mi, ir), j)) => {
            match p_broadcast_payload(s, j) {
                Some((pl, j2)) => {
                    if let Some(j3) = p_lit(s, j2, "}}") {
                        Some(
                            (
                                crate::msg_protocol::Message {
                                    src,
                                    dest,
                                    body: crate::msg_protocol::Body {
                                        msg_id: mi,
                                        in_reply_to: ir,
                                        body: pl,
                                    },
                                },
                                j3,
                            ),
                        )
                    } else {
                        None
                    }
                },
                None => None,
            }
        },
        None => None,
    }
}

/// Decode one broadcast-protocol envelope from its wire text; the whole
/// text must be one envelope.
pub fn decode_broadcast_message(s: &str) -> (r: Option<
    crate::msg_protocol::Message<crate::broadcast::BroadcastMessage>,
>)
    ensures
        match r {
            Some(m) => sp_broadcast_msg(s@, 0) == Some((m@, s@.len() as int)),
            None => sp_broadcast_msg(s@, 0) matches Some((_, j)) ==> j != s@.len(),
        },
{
    let chars = str_chars(s);
    match p_broadcast_msg(&chars, 0) {
        Some((m, j)) => {
            if j == chars.len() {
                Some(m)
            } else {
                None
            }
        },
        None => None,
    }
}

/// The flattened payload fields of one echo body.
fn emit_echo_payload(out: &mut Vec<char>, p: &crate::echo::EchoMessage)
    ensures
        final(out)@ == old(out)@ + json_echo_payload(p@),
{
    match p {
        crate::echo::EchoMessage::Init { node_id, node_ids } => {
            push_lit(out, "\"type\":\"init\",\"node_id\":");
            emit_string(out, node_id);
            push_lit(out, ",\"node_ids\":");
            emit_str_list(out, node_ids);
            proof {
                assert(out@ =~= old(out)@ + json_echo_payload(p@));
            }
        },
        crate::echo::EchoMessage::InitOk {} => {
            push_lit(out, "\"type\":\"init_ok\"");
        },
        crate::echo::EchoMessage::EchoOk { echo } => {
            push_lit(out, "\"type\":\"echo_ok\",\"echo\":");
            emit_string(out, echo);
            proof {
                assert(out@ =~= old(out)@ + json_echo_payload(p@));
            }
        },
        crate::echo::EchoMessage::Echo { echo } => {
            push_lit(out, "\"type\":\"echo\",\"echo\":");
            emit_string(out, echo);
            proof {
                assert(out@ =~= old(out)@ + json_echo_payload(p@));
            }
        },
    }
}

/// The wire text of one echo-protocol envelope.
pub fn encode_echo_message(m: &crate::msg_protocol::Message<crate::echo::EchoMessage>) -> (r:
    String)
    ensures
        r@ == json_echo_msg(m@),
{
    let mut out: Vec<char> = Vec::new();
    emit_env_head(&mut out, m);
    emit_echo_payload(&mut out, &m.body.body);
    push_lit(&mut out, "}}");
    proof {
        assert(out@ =~= json_echo_msg(m@));
    }
    chars_to_string(out)
}

/// The flattened payload fields of an echo body.
fn p_echo_payload(s: &Vec<char>, i: usize) -> (r: Option<(crate::echo::EchoMessage, usize)>)
    requires
        i <= s.len(),
    ensures
        match r {
            Some((v, j)) => sp_echo_payload(s@, i as int) == Some((v@, j as int)) && j
                <= s@.len(),
            None => sp_echo_payload(s@, i as int) is None,
        },
{
    if let Some(j) = p_lit(s, i, "\"type\":\"init\",\"node_id\":") {
        match p_string(s, j) {
            Some((nid, j2)) => {
                if let Some(j3) = p_lit(s, j2, ",\"node_ids\":") {
                    match p_str_list(s, j3) {
                        Some((ns, j4)) => Some(
                            (
                                crate::echo::EchoMessage::Init {
                                    node_id: nid,
                                    node_ids: ns.items,
                                },
                                j4,
                            ),
                        ),
                        None => None,
                    }
                } else {
                    None
                }
            },
            None => None,
        }
    } else if let Some(j) = p_lit(s, i, "\"type\":\"init_ok\"") {
        Some((crate::echo::EchoMessage::InitOk {}, j))
    } else if let Some(j) = p_lit(s, i, "\"type\":\"echo_ok\",\"echo\":") {
        match p_string(s, j) {
            Some((e, j2)) => Some((crate::echo::EchoMessage::EchoOk { echo: e }, j2)),
            None => None,
        }
    } else if let Some(j) = p_lit(s, i, "\"type\":\"echo\",\"echo\":") {
        match p_string(s, j) {
            Some((e, j2)) => Some((crate::echo::EchoMessage::Echo { echo: e }, j2)),
            None => None,
        }
    } else {
        None
    }
}

/// One whole echo-protocol envelope.
fn p_echo_msg(s: &Vec<char>, i: usize) -> (r: Option<
    (crate::msg_protocol::Message<crate::echo::EchoMessage>, usize),
>)
    requires
        i <= s.len(),
    ensures
        match r {
            Some((m, j)) => sp_echo_msg(s@, i as int) == Some((m@, j as int)) && j <= s@.len(),
            None => sp_echo_msg(s@, i as int) is None,
        },
{
    proof {
        reveal_strlit("}}");
    }
    match p_env_head(s, i) {
        Some(((src, dest, mi, ir), j)) => {
            match p_echo_payload(s, j) {
                Some((pl, j2)) => {
                    if let Some(j3) = p_lit(s, j2, "}}") {
                        Some(
                            (
                                crate::msg_protocol::Message {
                                    src,
                                    dest,
                                    body: crate::msg_protocol::Body {
                                        msg_id: mi,
                                        in_reply_to: ir,
                                        body: pl,
                                    },
                                },
                                j3,
                            ),
                        )
                    } else {
                        None
                    }
                },
                None => None,
            }
        },
        None => None,
    }
}

/// Decode one echo-protocol envelope from its wire text.
pub fn decode_echo_message(s: &str) -> (r: Option<
    crate::msg_protocol::Message<crate::echo::EchoMessage>,
>)
    ensures
        match r {
            Some(m) => sp_echo_msg(s@, 0) == Some((m@, s@.len() as int)),
            None => sp_echo_msg(s@, 0) matches Some((_, j)) ==> j != s@.len(),
        },
{
    let chars = str_chars(s);
    match p_echo_msg(&chars, 0) {
        Some((m, j)) => {
            if j == chars.len() {
                Some(m)
            } else {
                None
            }
        },
        None => None,
    }
}

// ---------------------------------------------------------------------
// The standalone processor's envelopes, over the shared echo wire form.
// ---------------------------------------------------------------------

/// The id fields hold values a `usize` can carry.
pub open spec fn id_in_usize_range(v: Option<int>) -> bool {
    match v {
        Some(x) => 0 <= x <= usize::MAX,
        None => true,
    }
}

/// `null` or the JSON number of an id that fits the wire's signed range.
fn emit_opt_usize(out: &mut Vec<char>, v: &Option<usize>)
    requires
        id_in_range(crate::message_processor::view_of_opt_usize(*v)),
    ensures
        final(out)@ == old(out)@ + json_opt_id(crate::message_processor::view_of_opt_usize(*v)),
{
    match v {
        Some(x) => {
            emit_i64(out, *x as i64);
            proof {
                assert(((*x as int) as i64) == *x as i64);
            }
        },
        None => {
            push_lit(out, "null");
            proof {
                reveal_strlit("null");
                assert("null"@ =~= seq!['n', 'u', 'l', 'l']);
            }
        },
    }
}

/// The flattened payload fields of one standalone-processor body.
fn emit_mp_payload(out: &mut Vec<char>, p: &crate::message_processor::MessageBodyType)
    ensures
        final(out)@ == old(out)@ + json_echo_payload(p@),
{
    match p {
        crate::message_processor::MessageBodyType::Init { node_id, node_ids } => {
            push_lit(out, "\"type\":\"init\",\"node_id\":");
            emit_string(out, node_id);
            push_lit(out, ",\"node_ids\":");
            emit_str_list(out, node_ids);
            proof {
                assert(out@ =~= old(out)@ + json_echo_payload(p@));
            }
        },
        crate::message_processor::MessageBodyType::InitOk {} => {
            push_lit(out, "\"type\":\"init_ok\"");
        },
        crate::message_processor::MessageBodyType::EchoOk { echo } => {
            push_lit(out, "\"type\":\"echo_ok\",\"echo\":");
            emit_string(out, echo);
            proof {
                assert(out@ =~= old(out)@ + json_echo_payload(p@));
            }
        },
        crate::message_processor::MessageBodyType::Echo { echo } => {
            push_lit(out, "\"type\":\"echo\",\"echo\":");
            emit_string(out, echo);
            proof {
                assert(out@ =~= old(out)@ + json_echo_payload(p@));
            }
        },
    }
}

/// The wire text of one standalone-processor envelope. The wire carries
/// ids as signed numbers, so the counter must fit that range.
pub fn encode_processor_message(m: &crate::message_processor::Message) -> (r: String)
    requires
        id_in_range(m@.msg_id),
        id_in_range(m@.in_reply_to),
    ensures
        r@ == json_echo_msg(m@),
{
    let mut out: Vec<char> = Vec::new();
    push_lit(&mut out, "{\"src\":");
    emit_opt_string(&mut out, &m.src);
    push_lit(&mut out, ",\"dest\":");
    emit_opt_string(&mut out, &m.dest);
    push_lit(&mut out, ",\"body\":{\"msg_id\":");
    emit_opt_usize(&mut out, &m.body.msg_id);
    push_lit(&mut out, ",\"in_reply_to\":");
    emit_opt_usize(&mut out, &m.body.in_reply_to);
    push_lit(&mut out, ",");
    emit_mp_payload(&mut out, &m.body.body);
    push_lit(&mut out, "}}");
    proof {
        assert(out@ =~= json_echo_msg(m@));
    }
    chars_to_string(out)
}

/// A wire id as a `usize` counter value, when it fits.
fn to_usize_id(v: &Option<i64>) -> (r: Option<Option<usize>>)
    ensures
        match r {
            Some(u) => crate::message_processor::view_of_opt_usize(u)
                == crate::msg_protocol::view_of_opt_i64(*v) && id_in_usize_range(
                crate::msg_protocol::view_of_opt_i64(*v),
            ),
            None => !id_in_usize_range(crate::msg_protocol::view_of_opt_i64(*v)),
        },
{
    match v {
        None => Some(None),
        Some(x) => {
            if *x < 0 {
                None
            } else if (*x as u64) > (usize::MAX as u64) {
                None
            } else {
                Some(Some(*x as usize))
            }
        },
    }
}

/// The flattened payload fields of a standalone-processor body.
fn p_mp_payload(s: &Vec<char>, i: usize) -> (r: Option<
    (crate::message_processor::MessageBodyType, usize),
>)
    requires
        i <= s.len(),
    ensures
        match r {
            Some((v, j)) => sp_echo_payload(s@, i as int) == Some((v@, j as int)) && j
                <= s@.len(),
            None => sp_echo_payload(s@, i as int) is None,
        },
{
    if let Some(j) = p_lit(s, i, "\"type\":\"init\",\"node_id\":") {
        match p_string(s, j) {
            Some((nid, j2)) => {
                if let Some(j3) = p_lit(s, j2, ",\"node_ids\":") {
                    match p_str_list(s, j3) {
                        Some((ns, j4)) => Some(
                            (
                                crate::message_processor::MessageBodyType::Init {
                                    node_id: nid,
                                    node_ids: ns.items,
                                },
                                j4,
                            ),
                        ),
                        None => None,
                    }
                } else {
                    None
                }
            },
            None => None,
        }
    } else if let Some(j) = p_lit(s, i, "\"type\":\"init_ok\"") {
        Some((crate::message_processor::MessageBodyType::InitOk {}, j))
    } else if let Some(j) = p_lit(s, i, "\"type\":\"echo_ok\",\"echo\":") {
        match p_string(s, j) {
            Some((e, j2)) => Some(
                (crate::message_processor::MessageBodyType::EchoOk { echo: e }, j2),
            ),
            None => None,
        }
    } else if let Some(j) = p_lit(s, i, "\"type\":\"echo\",\"echo\":") {
        match p_string(s, j) {
            Some((e, j2)) => Some(
                (crate::message_processor::MessageBodyType::Echo { echo: e }, j2),
            ),
            None => None,
        }
    } else {
        None
    }
}

/// Decode one standalone-processor envelope from its wire text; besides
/// the shape, both ids must fit the processor's counter type.
pub fn decode_processor_message(s: &str) -> (r: Option<crate::message_processor::Message>)
    ensures
        match r {
            Some(m) => sp_echo_msg(s@, 0) == Some((m@, s@.len() as int)),
            None => sp_echo_msg(s@, 0) matches Some((mv, j)) ==> (j != s@.len()
                || !id_in_usize_range(mv.msg_id) || !id_in_usize_range(mv.in_reply_to)),
        },
{
    proof {
        reveal_strlit("}}");
    }
    let chars = str_chars(s);
    match p_env_head(&chars, 0) {
        Some(((src, dest, mi, ir), j)) => {
            match p_mp_payload(&chars, j) {
                Some((pl, j2)) => {
                    if let Some(j3) = p_lit(&chars, j2, "}}") {
                        if j3 == chars.len() {
                            match to_usize_id(&mi) {
                                Some(mi2) => match to_usize_id(&ir) {
                                    Some(ir2) => Some(
                                        crate::message_processor::Message {
                                            src,
                                            dest,
                                            body: crate::message_processor::Body {
                                                msg_id: mi2,
                                                in_reply_to: ir2,
                                                body: pl,
                                            },
                                        },
                                    ),
                                    None => None,
                                },
                                None => None,
                            }
                        } else {
                            None
                        }
                    } else {
                        None
                    }
                },
                None => None,
            }
        },
        None => None,
    }
}

} // verus!
