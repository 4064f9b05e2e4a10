//! Decimal text: numbers are read with `num_bigint`'s parser and written with
//! its formatter; comma-separated lists of them are split and trimmed here.

use crate::bignum::{is_canonical_be, nat_of_be, values, BigNum};
use num_bigint::BigUint;
use std::str::FromStr;
use vstd::prelude::*;
use vstd::string::StrSliceExecFns;

verus! {

/// Whether `c` is one of the ASCII digits `0`..`9`.
pub open spec fn is_digit(c: char) -> bool {
    0x30 <= c as u32 <= 0x39
}

/// The value of an ASCII digit.
pub open spec fn digit_value(c: char) -> nat {
    (c as u32 - 0x30) as nat
}

/// The text after one leading `+` (a `+` followed by another `+` stays).
pub open spec fn unsigned_part(s: Seq<char>) -> Seq<char> {
    if s.len() >= 1 && s[0] == '+' && !(s.len() >= 2 && s[1] == '+') {
        s.drop_first()
    } else {
        s
    }
}

/// Decimal digits, with underscores allowed anywhere but in front.
pub open spec fn is_digits(t: Seq<char>) -> bool {
    &&& t.len() > 0
    &&& t[0] != '_'
    &&& forall|i: int| 0 <= i < t.len() ==> is_digit(#[trigger] t[i]) || t[i] == '_'
}

/// Whether `s` is a decimal number as `num_bigint` reads it: an optional
/// `+`, then digits, possibly separated by underscores.
pub open spec fn is_decimal(s: Seq<char>) -> bool {
    is_digits(unsigned_part(s))
}

/// The number that a string of digits and underscores denotes.
pub open spec fn digits_value(t: Seq<char>) -> nat
    decreases t.len(),
{
    if t.len() == 0 {
        0
    } else if t.last() == '_' {
        digits_value(t.drop_last())
    } else {
        digits_value(t.drop_last()) * 10 + digit_value(t.last())
    }
}

/// The number that a decimal text denotes.
pub open spec fn decimal_value(s: Seq<char>) -> nat {
    digits_value(unsigned_part(s))
}

/// `num_bigint`'s message for a text it cannot read.
pub open spec fn parse_error_msg(s: Seq<char>) -> Seq<char> {
    if unsigned_part(s).len() == 0 {
        "cannot parse integer from empty string"@
    } else {
        "invalid digit found in string"@
    }
}

/// The character of a digit value below ten.
pub open spec fn digit_char(d: nat) -> char {
    (d + 0x30) as char
}

/// The shortest decimal digits of `n` (`"0"` for zero).
pub open spec fn decimal_digits(n: nat) -> Seq<char>
    decreases n,
{
    if n < 10 {
        seq![digit_char(n)]
    } else {
        decimal_digits(n / 10).push(digit_char(n % 10))
    }
}

/// The digits of `n` are all ASCII digits, at least one of them.
proof fn lemma_decimal_digits_are_digits(n: nat)
    ensures
        decimal_digits(n).len() >= 1,
        forall|i: int|
            0 <= i < decimal_digits(n).len() ==> is_digit(#[trigger] decimal_digits(n)[i]),
    decreases n,
{
    if n >= 10 {
        lemma_decimal_digits_are_digits(n / 10);
        let d = decimal_digits(n / 10);
        assert forall|i: int| 0 <= i < decimal_digits(n).len() implies is_digit(
            #[trigger] decimal_digits(n)[i],
        ) by {
            if i < d.len() {
                assert(decimal_digits(n)[i] == d[i]);
            }
        }
    }
}

/// The digits of `n` read back as `n`.
proof fn lemma_digits_value_of_digits(n: nat)
    ensures
        digits_value(decimal_digits(n)) == n,
    decreases n,
{
    let ds = decimal_digits(n);
    if n < 10 {
        assert(ds.drop_last() =~= Seq::<char>::empty());
        assert(ds.last() == digit_char(n));
        assert(digit_value(digit_char(n)) == n);
        assert(ds.last() != '_');
        assert(digits_value(Seq::<char>::empty()) == 0);
    } else {
        lemma_digits_value_of_digits(n / 10);
        assert(ds.drop_last() =~= decimal_digits(n / 10));
        assert(ds.last() == digit_char(n % 10));
        assert(digit_value(digit_char(n % 10)) == n % 10);
        assert(ds.last() != '_');
        assert(n == (n / 10) * 10 + n % 10) by (nonlinear_arith);
        assert(digits_value(ds) == digits_value(ds.drop_last()) * 10 + digit_value(ds.last()));
    }
}

/// Writing a number in decimal and reading it back gives the number: the
/// text `to_decimal` writes is accepted by `parse_decimal` with the same
/// value.
pub proof fn lemma_decimal_round_trip(n: nat)
    ensures
        is_decimal(decimal_digits(n)),
        decimal_value(decimal_digits(n)) == n,
{
    lemma_decimal_digits_are_digits(n);
    lemma_digits_value_of_digits(n);
    let ds = decimal_digits(n);
    assert(is_digit(ds[0]));
    assert(unsigned_part(ds) == ds);
}

/// `<BigUint as FromStr>::from_str` (that is, `from_str_radix(s, 10)`, which
/// `BigUint::parse_bytes(s, 10)` also runs), read back with `to_bytes_be`.
/// Claims what its source shows: it accepts exactly an optional `+` and
/// then ASCII digits with underscores after the first one, denotes their
/// value, and otherwise fails with the message of an empty or an invalid
/// text.
#[verifier::external_body]
fn raw_parse_decimal(s: &str) -> (res: Result<Vec<u8>, String>)
    ensures
        res is Ok <==> is_decimal(s@),
        res matches Ok(b) ==> nat_of_be(b@) == decimal_value(s@) && is_canonical_be(b@),
        res matches Err(m) ==> m@ == parse_error_msg(s@),
{
    match BigUint::from_str(s) {
        Ok(n) => Ok(n.to_bytes_be()),
        Err(e) => Err(e.to_string()),
    }
}

/// `BigUint`'s `Display` (`to_string`). Claims: the shortest decimal digits
/// of the number.
#[verifier::external_body]
fn raw_to_decimal(b: &[u8]) -> (s: String)
    ensures
        s@ == decimal_digits(nat_of_be(b@)),
{
    BigUint::from_bytes_be(b).to_string()
}

/// Reads a decimal number, or gives `num_bigint`'s reason for refusing it.
pub fn parse_decimal(s: &str) -> (res: Result<BigNum, String>)
    ensures
        res is Ok <==> is_decimal(s@),
        res matches Ok(n) ==> n@ == decimal_value(s@),
        res matches Err(m) ==> m@ == parse_error_msg(s@),
{
    match raw_parse_decimal(s) {
        Ok(b) => Ok(BigNum::wrap(b)),
        Err(m) => Err(m),
    }
}

/// Reads a decimal number.
pub fn from_decimal(s: &str) -> (res: Option<BigNum>)
    ensures
        res is Some <==> is_decimal(s@),
        res matches Some(n) ==> n@ == decimal_value(s@),
{
    match parse_decimal(s) {
        Ok(n) => Some(n),
        Err(_) => None,
    }
}

impl BigNum {
    /// The decimal digits of the number.
    pub fn to_decimal(&self) -> (s: String)
        ensures
            s@ == decimal_digits(self@),
    {
        raw_to_decimal(self.as_be_bytes())
    }
}

/// Unicode white space, as `str::trim` removes it.
pub open spec fn is_white_space(c: char) -> bool {
    let u = c as u32;
    ||| 0x09 <= u <= 0x0D
    ||| u == 0x20
    ||| u == 0x85
    ||| u == 0xA0
    ||| u == 0x1680
    ||| 0x2000 <= u <= 0x200A
    ||| u == 0x2028
    ||| u == 0x2029
    ||| u == 0x202F
    ||| u == 0x205F
    ||| u == 0x3000
}

fn white_space(c: char) -> (b: bool)
    ensures
        b == is_white_space(c),
{
    let u = c as u32;
    (0x09 <= u && u <= 0x0D) || u == 0x20 || u == 0x85 || u == 0xA0 || u == 0x1680 || (0x2000 <= u
        && u <= 0x200A) || u == 0x2028 || u == 0x2029 || u == 0x202F || u == 0x205F || u == 0x3000
}

/// The first position at or after `i` that is not white space.
pub open spec fn first_kept(s: Seq<char>, i: int) -> int
    decreases s.len() - i,
{
    if 0 <= i < s.len() && is_white_space(s[i]) {
        first_kept(s, i + 1)
    } else {
        i
    }
}

/// The end of `s[lo..j]` once trailing white space is dropped.
pub open spec fn last_kept(s: Seq<char>, lo: int, j: int) -> int
    decreases j - lo,
{
    if lo < j <= s.len() && is_white_space(s[j - 1]) {
        last_kept(s, lo, j - 1)
    } else {
        j
    }
}

/// `s` without leading and trailing white space.
pub open spec fn trimmed(s: Seq<char>) -> Seq<char> {
    let a = first_kept(s, 0);
    s.subrange(a, last_kept(s, a, s.len() as int))
}

/// Drops leading and trailing white space.
pub fn trim_white_space(s: &str) -> (r: &str)
    ensures
        r@ == trimmed(s@),
{
    let n = s.unicode_len();
    let mut a: usize = 0;
    while a < n && white_space(s.get_char(a))
        invariant
            n == s@.len(),
            a <= n,
            first_kept(s@, a as int) == first_kept(s@, 0),
        decreases n - a,
    {
        a = a + 1;
    }
    let mut b: usize = n;
    while b > a && white_space(s.get_char(b - 1))
        invariant
            n == s@.len(),
            a <= b <= n,
            first_kept(s@, 0) == a,
            last_kept(s@, a as int, b as int) == last_kept(s@, a as int, n as int),
        decreases b,
    {
        b = b - 1;
    }
    s.substring_char(a, b)
}

/// The pieces of `s` between commas, the current one starting at `start`,
/// with the scan at `i`.
pub open spec fn comma_fields_from(s: Seq<char>, start: int, i: int) -> Seq<Seq<char>>
    decreases s.len() - i,
{
    if i >= s.len() {
        seq![s.subrange(start, s.len() as int)]
    } else if s[i] == ',' {
        seq![s.subrange(start, i)] + comma_fields_from(s, i + 1, i + 1)
    } else {
        comma_fields_from(s, start, i + 1)
    }
}

/// The pieces of `s` between commas (`str::split(',')`).
pub open spec fn comma_fields(s: Seq<char>) -> Seq<Seq<char>> {
    comma_fields_from(s, 0, 0)
}

/// The fields, trimmed, with the empty ones left out.
pub open spec fn list_items(fields: Seq<Seq<char>>) -> Seq<Seq<char>>
    decreases fields.len(),
{
    if fields.len() == 0 {
        Seq::empty()
    } else {
        let rest = list_items(fields.drop_last());
        let t = trimmed(fields.last());
        if t.len() > 0 {
            rest.push(t)
        } else {
            rest
        }
    }
}

/// The items of a comma-separated list.
pub open spec fn csv_items(s: Seq<char>) -> Seq<Seq<char>> {
    list_items(comma_fields(s))
}

/// Whether every item of the list is a decimal number.
pub open spec fn csv_parses(s: Seq<char>) -> bool {
    forall|k: int| 0 <= k < csv_items(s).len() ==> is_decimal(#[trigger] csv_items(s)[k])
}

/// The numbers of a comma-separated list.
pub open spec fn csv_values(s: Seq<char>) -> Seq<nat> {
    csv_items(s).map_values(|t: Seq<char>| decimal_value(t))
}

proof fn lemma_list_items_concat(a: Seq<Seq<char>>, b: Seq<Seq<char>>)
    ensures
        list_items(a + b) == list_items(a) + list_items(b),
    decreases b.len(),
{
    if b.len() == 0 {
        assert(a + b =~= a);
        assert(list_items(b) =~= Seq::<Seq<char>>::empty());
        assert(list_items(a) + list_items(b) =~= list_items(a));
    } else {
        lemma_list_items_concat(a, b.drop_last());
        assert((a + b).drop_last() =~= a + b.drop_last());
        assert((a + b).last() == b.last());
        let t = trimmed(b.last());
        if t.len() > 0 {
            assert(list_items(a) + list_items(b.drop_last()).push(t) =~= (list_items(a)
                + list_items(b.drop_last())).push(t));
        }
    }
}

/// Reads a comma-separated list of decimal numbers; items are trimmed and
/// empty ones skipped.  `None` when an item is not a decimal number.
pub fn parse_path_csv(s: &str) -> (res: Option<Vec<BigNum>>)
    ensures
        res is Some <==> csv_parses(s@),
        res matches Some(v) ==> values(v@) == csv_values(s@),
{
    let ghost all = comma_fields(s@);
    let n = s.unicode_len();
    let mut start: usize = 0;
    let mut i: usize = 0;
    let mut out: Vec<BigNum> = Vec::new();
    let ghost mut done: Seq<Seq<char>> = Seq::empty();
    while i < n
        invariant
            n == s@.len(),
            start <= i <= n,
            all == comma_fields(s@),
            done + comma_fields_from(s@, start as int, i as int) == all,
            forall|k: int| 0 <= k < list_items(done).len() ==> is_decimal(#[trigger] list_items(done)[k]),
            values(out@) == list_items(done).map_values(|t: Seq<char>| decimal_value(t)),
        decreases n - i,
    {
        if s.get_char(i) == ',' {
            let ghost field = s@.subrange(start as int, i as int);
            let ghost before = list_items(done);
            assert(comma_fields_from(s@, start as int, i as int) == seq![field]
                + comma_fields_from(s@, i + 1, i + 1));
            assert(done.push(field).drop_last() =~= done);
            assert(done.push(field) + comma_fields_from(s@, i + 1, i + 1) =~= all);
            let ghost old_out = out@;
            let piece = trim_white_space(s.substring_char(start, i));
            if piece.unicode_len() > 0 {
                match from_decimal(piece) {
                    Some(x) => {
                        out.push(x);
                    },
                    None => {
                        proof {
                            lemma_list_items_concat(
                                done.push(field),
                                comma_fields_from(s@, i + 1, i + 1),
                            );
                            let k = before.len() as int;
                            assert(csv_items(s@)[k] == trimmed(field));
                        }
                        return None;
                    },
                }
            }
            proof {
                let t = trimmed(field);
                assert(piece@ == t);
                assert(list_items(done.push(field)) == if t.len() > 0 {
                    before.push(t)
                } else {
                    before
                });
                if t.len() > 0 {
                    assert(values(out@) =~= values(old_out).push(decimal_value(t)));
                    assert(before.push(t).map_values(|u: Seq<char>| decimal_value(u))
                        =~= before.map_values(|u: Seq<char>| decimal_value(u)).push(
                        decimal_value(t),
                    ));
                } else {
                    assert(out@ == old_out);
                }
                done = done.push(field);
                assert(values(out@) =~= list_items(done).map_values(
                    |t: Seq<char>| decimal_value(t),
                ));
            }
            start = i + 1;
        } else {
            assert(comma_fields_from(s@, start as int, i as int) == comma_fields_from(
                s@,
                start as int,
                i + 1,
            ));
        }
        i = i + 1;
    }
    let ghost field = s@.subrange(start as int, n as int);
    assert(comma_fields_from(s@, start as int, n as int) == seq![field]);
    assert(done.push(field) =~= all);
    assert(done.push(field).drop_last() =~= done);
    let ghost old_out = out@;
    let piece = trim_white_space(s.substring_char(start, n));
    if piece.unicode_len() > 0 {
        match from_decimal(piece) {
            Some(x) => {
                out.push(x);
            },
            None => {
                proof {
                    let k = list_items(done).len() as int;
                    assert(csv_items(s@)[k] == trimmed(field));
                }
                return None;
            },
        }
    }
    proof {
        let t = trimmed(field);
        let before = list_items(done);
        assert(piece@ == t);
        assert(csv_items(s@) == if t.len() > 0 {
            before.push(t)
        } else {
            before
        });
        if t.len() > 0 {
            assert(values(out@) =~= values(old_out).push(decimal_value(t)));
            assert(before.push(t).map_values(|u: Seq<char>| decimal_value(u)) =~= before.map_values(
                |u: Seq<char>| decimal_value(u),
            ).push(decimal_value(t)));
        } else {
            assert(out@ == old_out);
        }
        assert(values(out@) =~= csv_values(s@));
    }
    Some(out)
}

} // verus!
