//! The formatting policy: how identifiers are cased, how numbers are
//! written, and how field collections are ordered.
use vstd::prelude::*;
use vstd::string::*;

verus! {

/// Case conversion applied to an identifier.
#[derive(Clone, Copy, Debug, PartialEq, Eq)]
pub enum IdentifierFormat {
    /// Kept as written.
    Verbatim,
    /// ASCII letters in upper case.
    Uppercase,
    /// ASCII letters in lower case.
    Lowercase,
}

/// How an unsigned number is written.
#[derive(Clone, Copy, Debug, PartialEq, Eq)]
pub enum NumberFormat {
    /// Decimal digits.
    Dec,
    /// `0x` and lower-case hexadecimal digits.
    LowerHex,
    /// `0x` and upper-case hexadecimal digits.
    UpperHex,
    /// `0x` and lower-case hexadecimal digits, zero-padded to eight digits.
    LowerHex8,
    /// `0x` and upper-case hexadecimal digits, zero-padded to eight digits.
    UpperHex8,
}

/// A key by which fields are sorted.
#[derive(Clone, Copy, Debug, PartialEq, Eq)]
pub enum Sorting {
    /// Ascending bit offset.
    Offset,
    /// Descending bit offset.
    OffsetReversed,
    /// Ascending name.
    Name,
}

/// How a field collection is ordered before it is emitted.
#[derive(Clone, Copy, Debug, PartialEq, Eq)]
pub enum DerivableSorting {
    /// The whole collection, sorted by the key if there is one.
    Unchanged(Option<Sorting>),
    /// Fields that derive from nothing first, then the others; each part
    /// sorted by the key if there is one.
    DeriveLast(Option<Sorting>),
}

/// The formatting policy of one encode call.
#[derive(Clone, Copy, Debug, PartialEq, Eq)]
pub struct Config {
    pub register_name: IdentifierFormat,
    pub register_address_offset: NumberFormat,
    pub register_size: NumberFormat,
    pub register_reset_value: NumberFormat,
    pub register_reset_mask: NumberFormat,
    pub dim_dim_increment: NumberFormat,
    pub field_name: IdentifierFormat,
    pub field_sorting: DerivableSorting,
}

/// Relies on String::push: the character is appended at the end.
#[verifier::external_body]
pub(crate) fn push_char(s: &mut String, c: char)
    ensures
        final(s)@ == old(s)@.push(c),
{
    s.push(c)
}

// ---------------------------------------------------------------- case

pub open spec fn upper_char(c: char) -> char {
    if 'a' <= c && c <= 'z' {
        (((c as u32) - 32) as u8) as char
    } else {
        c
    }
}

pub open spec fn lower_char(c: char) -> char {
    if 'A' <= c && c <= 'Z' {
        (((c as u32) + 32) as u8) as char
    } else {
        c
    }
}

/// The identifier `s` converted by `f`.
pub open spec fn case_of(s: Seq<char>, f: IdentifierFormat) -> Seq<char> {
    match f {
        IdentifierFormat::Verbatim => s,
        IdentifierFormat::Uppercase => s.map_values(|c: char| upper_char(c)),
        IdentifierFormat::Lowercase => s.map_values(|c: char| lower_char(c)),
    }
}

fn convert_char(c: char, f: IdentifierFormat) -> (r: char)
    ensures
        r == case_of(seq![c], f)[0],
{
    match f {
        IdentifierFormat::Verbatim => c,
        IdentifierFormat::Uppercase => {
            if 'a' <= c && c <= 'z' {
                ((c as u8) - 32) as char
            } else {
                c
            }
        },
        IdentifierFormat::Lowercase => {
            if 'A' <= c && c <= 'Z' {
                ((c as u8) + 32) as char
            } else {
                c
            }
        },
    }
}

/// Converts the identifier `s` by the rule `f`.
pub fn change_case(s: &str, f: IdentifierFormat) -> (r: String)
    ensures
        r@ == case_of(s@, f),
{
    let n = s.unicode_len();
    let mut r = String::new();
    let mut i: usize = 0;
    while i < n
        invariant
            n == s@.len(),
            0 <= i <= n,
            r@ == case_of(s@.subrange(0, i as int), f),
        decreases n - i,
    {
        let c = convert_char(s.get_char(i), f);
        push_char(&mut r, c);
        i = i + 1;
        assert(r@ =~= case_of(s@.subrange(0, i as int), f));
    }
    assert(s@.subrange(0, n as int) =~= s@);
    r
}

/// Converting an identifier a second time by the same rule changes nothing.
pub proof fn lemma_change_case_idempotent(s: Seq<char>, f: IdentifierFormat)
    ensures
        case_of(case_of(s, f), f) == case_of(s, f),
{
    assert(case_of(case_of(s, f), f) =~= case_of(s, f));
}

// ---------------------------------------------------------------- numbers

/// The character of digit `d` (below sixteen).
pub open spec fn digit_char(d: nat, upper: bool) -> char {
    if d < 10 {
        ((d + 48) as u8) as char
    } else if upper {
        ((d + 55) as u8) as char
    } else {
        ((d + 87) as u8) as char
    }
}

/// The value of a digit character, or -1 for any other character.
pub open spec fn digit_value(c: char) -> int {
    if '0' <= c && c <= '9' {
        c as int - 48
    } else if 'a' <= c && c <= 'f' {
        c as int - 87
    } else if 'A' <= c && c <= 'F' {
        c as int - 55
    } else {
        -1
    }
}

pub open spec fn all_digits(s: Seq<char>, base: nat) -> bool {
    forall|i: int| 0 <= i < s.len() ==> 0 <= #[trigger] digit_value(s[i]) < base
}

/// The number that the digits `s` write in `base`.
pub open spec fn value_of(s: Seq<char>, base: nat) -> nat
    decreases s.len(),
{
    if s.len() == 0 {
        0
    } else {
        value_of(s.drop_last(), base) * base + digit_value(s.last()) as nat
    }
}

/// The digits of `v` in `base`, most significant first, without leading zeros.
pub open spec fn digits_of(v: nat, base: nat, upper: bool) -> Seq<char>
    decreases v via digits_of_decreases
{
    if base < 2 || v < base {
        seq![digit_char(v, upper)]
    } else {
        digits_of(v / base, base, upper).push(digit_char(v % base, upper))
    }
}

pub open spec fn zeros(k: nat) -> Seq<char> {
    Seq::new(k, |i: int| '0')
}

#[via_fn]
proof fn digits_of_decreases(v: nat, base: nat, upper: bool) {
    if !(base < 2 || v < base) {
        assert(v / base < v) by (nonlinear_arith)
            requires base >= 2, v >= base;
    }
}

/// `s` with zeros in front, to at least `width` characters.
pub open spec fn pad_zeros(s: Seq<char>, width: nat) -> Seq<char> {
    if s.len() >= width {
        s
    } else {
        zeros((width - s.len()) as nat) + s
    }
}

/// The text of `v` written by `f`.
pub open spec fn number_text(v: nat, f: NumberFormat) -> Seq<char> {
    match f {
        NumberFormat::Dec => digits_of(v, 10, false),
        NumberFormat::LowerHex => seq!['0', 'x'] + digits_of(v, 16, false),
        NumberFormat::UpperHex => seq!['0', 'x'] + digits_of(v, 16, true),
        NumberFormat::LowerHex8 => seq!['0', 'x'] + pad_zeros(digits_of(v, 16, false), 8),
        NumberFormat::UpperHex8 => seq!['0', 'x'] + pad_zeros(digits_of(v, 16, true), 8),
    }
}

/// The number that `s` writes: `0x` or `0X` and hexadecimal digits, or
/// decimal digits; at least one digit.
pub open spec fn number_value(s: Seq<char>) -> Option<nat> {
    if s.len() > 2 && s[0] == '0' && (s[1] == 'x' || s[1] == 'X') {
        if all_digits(s.skip(2), 16) {
            Some(value_of(s.skip(2), 16))
        } else {
            None
        }
    } else if s.len() > 0 && all_digits(s, 10) {
        Some(value_of(s, 10))
    } else {
        None
    }
}

fn digit_char_exec(d: u8, upper: bool) -> (r: char)
    requires
        d < 16,
    ensures
        r == digit_char(d as nat, upper),
{
    if d < 10 {
        (d + 48) as char
    } else if upper {
        (d + 55) as char
    } else {
        (d + 87) as char
    }
}

fn push_digits(s: &mut String, v: u64, base: u64, upper: bool)
    requires
        base == 10 || base == 16,
    ensures
        final(s)@ == old(s)@ + digits_of(v as nat, base as nat, upper),
    decreases v,
{
    if v >= base {
        push_digits(s, v / base, base, upper);
    }
    let d = (v % base) as u8;
    push_char(s, digit_char_exec(d, upper));
    assert(final(s)@ =~= old(s)@ + digits_of(v as nat, base as nat, upper));
}

fn push_padded(s: &mut String, v: u64, upper: bool)
    ensures
        final(s)@ == old(s)@ + pad_zeros(digits_of(v as nat, 16, upper), 8),
{
    let mut d = String::new();
    push_digits(&mut d, v, 16, upper);
    let len = d.as_str().unicode_len();
    let mut k: usize = len;
    let ghost start = s@;
    assert(s@ =~= start + zeros(0));
    while k < 8
        invariant
            len == d@.len(),
            len <= k,
            k > len ==> k <= 8,
            s@ == start + zeros((k - len) as nat),
        decreases 8 - k,
    {
        push_char(s, '0');
        k = k + 1;
        assert(s@ =~= start + zeros((k - len) as nat));
    }
    s.append(d.as_str());
    assert(s@ =~= start + pad_zeros(d@, 8));
}

/// Writes `v` by the rule `f`.
pub fn format_number(v: u64, f: NumberFormat) -> (r: String)
    ensures
        r@ == number_text(v as nat, f),
{
    let mut r = String::new();
    match f {
        NumberFormat::Dec => {
            push_digits(&mut r, v, 10, false);
        },
        _ => {
            push_char(&mut r, '0');
            push_char(&mut r, 'x');
            match f {
                NumberFormat::LowerHex => push_digits(&mut r, v, 16, false),
                NumberFormat::UpperHex => push_digits(&mut r, v, 16, true),
                NumberFormat::LowerHex8 => push_padded(&mut r, v, false),
                _ => push_padded(&mut r, v, true),
            }
        },
    }
    assert(r@ =~= number_text(v as nat, f));
    r
}

fn digit_value_exec(c: char) -> (r: i8)
    ensures
        r as int == digit_value(c),
{
    if '0' <= c && c <= '9' {
        (c as u8 - 48) as i8
    } else if 'a' <= c && c <= 'f' {
        (c as u8 - 87) as i8
    } else if 'A' <= c && c <= 'F' {
        (c as u8 - 55) as i8
    } else {
        -1
    }
}

/// Reads a number written as `0x` or `0X` and hexadecimal digits, or as
/// decimal digits; `None` where the text is not such a number or its value
/// does not fit in 64 bits.
pub fn parse_number(s: &str) -> (r: Option<u64>)
    ensures
        r == match number_value(s@) {
            Some(v) => if v <= u64::MAX {
                Some(v as u64)
            } else {
                None::<u64>
            },
            None => None::<u64>,
        },
{
    let n = s.unicode_len();
    let hex = n > 2 && s.get_char(0) == '0' && (s.get_char(1) == 'x' || s.get_char(1) == 'X');
    let start: usize = if hex { 2 } else { 0 };
    let base: u64 = if hex { 16 } else { 10 };
    if n == 0 {
        return None;
    }
    let ghost t = s@.subrange(start as int, n as int);
    assert(hex ==> t =~= s@.skip(2));
    assert(!hex ==> t =~= s@);
    let mut acc: u64 = 0;
    let mut overflow = false;
    let mut i: usize = start;
    while i < n
        invariant
            n == s@.len(),
            start <= i <= n,
            t == s@.subrange(start as int, n as int),
            hex ==> t == s@.skip(2) && base == 16,
            !hex ==> t == s@ && base == 10,
            hex == (s@.len() > 2 && s@[0] == '0' && (s@[1] == 'x' || s@[1] == 'X')),
            n > 0,
            base == 10 || base == 16,
            all_digits(s@.subrange(start as int, i as int), base as nat),
            !overflow ==> acc == value_of(s@.subrange(start as int, i as int), base as nat),
            overflow ==> value_of(s@.subrange(start as int, i as int), base as nat) > u64::MAX,
        decreases n - i,
    {
        let ghost prev = s@.subrange(start as int, i as int);
        let ghost next = s@.subrange(start as int, i + 1);
        assert(next.drop_last() =~= prev);
        let d = digit_value_exec(s.get_char(i));
        if d < 0 || d as u64 >= base {
            assert(!all_digits(t, base as nat)) by {
                assert(t[i - start] == s@[i as int]);
            }
            return None;
        }
        let ghost pv = value_of(prev, base as nat);
        assert(value_of(next, base as nat) == pv * base + d) ;
        if !overflow {
            let m: u128 = acc as u128 * base as u128;
            assert(m <= 0xffff_ffff_ffff_ffffu128 * 16) by (nonlinear_arith)
                requires m == acc as u128 * base as u128, acc <= u64::MAX, base <= 16;
            let nv: u128 = m + d as u128;
            if nv > u64::MAX as u128 {
                overflow = true;
            } else {
                acc = nv as u64;
            }
        } else {
            assert(pv * base >= pv) by (nonlinear_arith)
                requires base >= 1;
        }
        i = i + 1;
    }
    assert(number_value(s@) == Some(value_of(t, base as nat)));
    if overflow {
        None
    } else {
        Some(acc)
    }
}

proof fn lemma_digit_char(d: nat, upper: bool)
    requires
        d < 16,
    ensures
        digit_value(digit_char(d, upper)) == d,
{
}

proof fn lemma_digits_of(v: nat, base: nat, upper: bool)
    requires
        base == 10 || base == 16,
    ensures
        digits_of(v, base, upper).len() >= 1,
        all_digits(digits_of(v, base, upper), base),
        value_of(digits_of(v, base, upper), base) == v,
    decreases v,
{
    let d = digits_of(v, base, upper);
    lemma_digit_char(v % base, upper);
    if v < base {
        assert(d.drop_last() =~= Seq::<char>::empty());
        assert(v % base == v) by (nonlinear_arith)
            requires v < base, base > 0;
        assert(0 * base == 0) by (nonlinear_arith);
        assert(value_of(d, base) == value_of(d.drop_last(), base) * base + digit_value(d.last()));
        assert(value_of(d.drop_last(), base) == 0);
        assert(d.last() == digit_char(v, upper));
    } else {
        lemma_digits_of(v / base, base, upper);
        assert(d.drop_last() =~= digits_of(v / base, base, upper));
        assert(v == (v / base) * base + v % base) by (nonlinear_arith)
            requires base > 0;
        assert(value_of(d, base) == value_of(d.drop_last(), base) * base + digit_value(d.last()));
        assert forall|i: int| 0 <= i < d.len() implies 0 <= #[trigger] digit_value(d[i]) < base by {
            if i < d.len() - 1 {
                assert(d[i] == digits_of(v / base, base, upper)[i]);
            }
        }
    }
}

proof fn lemma_zeros(k: nat, base: nat)
    ensures
        value_of(zeros(k), base) == 0,
    decreases k,
{
    if k > 0 {
        assert(zeros(k).drop_last() =~= zeros((k - 1) as nat));
        lemma_zeros((k - 1) as nat, base);
        assert(0 * base == 0) by (nonlinear_arith);
    }
}

proof fn lemma_leading_zeros(k: nat, s: Seq<char>, base: nat)
    ensures
        value_of(zeros(k) + s, base) == value_of(s, base),
    decreases s.len(),
{
    let z = zeros(k);
    if s.len() == 0 {
        assert(z + s =~= z);
        lemma_zeros(k, base);
    } else {
        assert((z + s).drop_last() =~= z + s.drop_last());
        lemma_leading_zeros(k, s.drop_last(), base);
    }
}

/// A number written by any rule reads back as the same number.
pub proof fn lemma_number_round_trip(v: u64, f: NumberFormat)
    ensures
        number_value(number_text(v as nat, f)) == Some(v as nat),
{
    let t = number_text(v as nat, f);
    match f {
        NumberFormat::Dec => {
            lemma_digits_of(v as nat, 10, false);
            if t.len() > 2 {
                assert(0 <= digit_value(t[1]) < 10);
            }
        },
        NumberFormat::LowerHex | NumberFormat::UpperHex => {
            let u = f == NumberFormat::UpperHex;
            lemma_digits_of(v as nat, 16, u);
            assert(t.skip(2) =~= digits_of(v as nat, 16, u));
        },
        NumberFormat::LowerHex8 | NumberFormat::UpperHex8 => {
            let u = f == NumberFormat::UpperHex8;
            let d = digits_of(v as nat, 16, u);
            lemma_digits_of(v as nat, 16, u);
            assert(t.skip(2) =~= pad_zeros(d, 8));
            if d.len() < 8 {
                let k = (8 - d.len()) as nat;
                lemma_leading_zeros(k, d, 16);
                let p = pad_zeros(d, 8);
                assert forall|i: int| 0 <= i < p.len() implies 0 <= #[trigger] digit_value(p[i]) < 16 by {
                    if i >= k {
                        assert(p[i] == d[i - k]);
                    }
                }
            }
        },
    }
}

} // verus!
