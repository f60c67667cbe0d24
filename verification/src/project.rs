//! The record model: the fixed eight-column schema, the typed field values
//! (money, currency, complexity, start date), per-field grammars, and the
//! parsing and formatting of one record.

use vstd::prelude::*;

use crate::date::{
    date_format, date_parse, date_valid, lemma_date_round_trip, parse_start_date, push_date,
    StartDate,
};
use crate::text::{
    all_digits, digit_val, digits_val, first_occ, is_digit, is_digit_char, lemma_digits_val_bounds,
    lemma_digits_val_prefix, lemma_first_occ, lemma_first_occ_is, lemma_nat_str_shape,
    lemma_nat_str_val, lemma_num_str_shape, lemma_num_str_val, lemma_pow10_table, nat_str,
    num_str, pow10, push_nat, push_num, read_num, str_eq,
};

verus! {

/// The canonical logical column order.
pub open spec fn column_names() -> Seq<Seq<char>> {
    seq![
        "Project"@,
        "Description"@,
        "Start date"@,
        "Category"@,
        "Responsible"@,
        "Savings amount"@,
        "Currency"@,
        "Complexity"@,
    ]
}

/// The canonical column name at index `k`.
pub fn column_name(k: usize) -> (r: &'static str)
    requires
        k < 8,
    ensures
        r@ == column_names()[k as int],
{
    if k == 0 {
        "Project"
    } else if k == 1 {
        "Description"
    } else if k == 2 {
        "Start date"
    } else if k == 3 {
        "Category"
    } else if k == 4 {
        "Responsible"
    } else if k == 5 {
        "Savings amount"
    } else if k == 6 {
        "Currency"
    } else {
        "Complexity"
    }
}

/// The sentinel token for an absent optional value.
pub open spec fn null_text() -> Seq<char> {
    "NULL"@
}

/// A monetary amount held as a whole number of millionths, so that six
/// decimal places are exact.
#[derive(Clone, Copy, PartialEq, Eq, Structural, Debug)]
pub struct Money(pub i64);

impl View for Money {
    type V = int;

    open spec fn view(&self) -> int {
        self.0 as int
    }
}

impl DeepView for Money {
    type V = int;

    open spec fn deep_view(&self) -> int {
        self.view()
    }
}

/// The part of a money text after the optional sign.
pub open spec fn money_body(s: Seq<char>) -> Seq<char> {
    if s.len() >= 1 && (s[0] == '-' || s[0] == '+') {
        s.drop_first()
    } else {
        s
    }
}

pub open spec fn money_neg(s: Seq<char>) -> bool {
    s.len() >= 1 && s[0] == '-'
}

/// A money text after the sign: digits, optionally followed by a point and
/// one to six fractional digits.
pub open spec fn money_shape(s: Seq<char>) -> bool {
    let b = money_body(s);
    let d = first_occ(b, '.');
    if d == b.len() {
        b.len() >= 1 && all_digits(b)
    } else {
        &&& d >= 1
        &&& all_digits(b.subrange(0, d))
        &&& 1 <= b.len() - d - 1 <= 6
        &&& all_digits(b.subrange(d + 1, b.len() as int))
    }
}

/// The magnitude of a money text in millionths.
pub open spec fn money_mag(s: Seq<char>) -> int {
    let b = money_body(s);
    let d = first_occ(b, '.');
    if d == b.len() {
        digits_val(b) * 1000000
    } else {
        digits_val(b.subrange(0, d)) * 1000000 + digits_val(b.subrange(d + 1, b.len() as int))
            * pow10((6 - (b.len() - d - 1)) as nat)
    }
}

/// Parsing a money field: the sentinel means absence; otherwise the text
/// must be a signed decimal number whose magnitude fits the representation.
pub open spec fn money_parse(s: Seq<char>) -> Result<Option<int>, ()> {
    if s == null_text() {
        Ok(None)
    } else if money_shape(s) && money_mag(s) <= i64::MAX as int {
        Ok(Some(if money_neg(s) { -money_mag(s) } else { money_mag(s) }))
    } else {
        Err(())
    }
}

/// The canonical text of an amount: optional minus sign, the whole part
/// without padding, a point, six fractional digits.
pub open spec fn money_format(v: int) -> Seq<char> {
    let m = if v < 0 { -v } else { v };
    (if v < 0 { seq!['-'] } else { Seq::<char>::empty() }) + nat_str(m / 1000000) + seq!['.']
        + num_str(m % 1000000, 6)
}

/// A closed currency enumeration.
#[derive(Clone, Copy, PartialEq, Eq, Structural, Debug)]
pub enum Currency {
    EUR,
}

pub open spec fn currency_text(c: Currency) -> Seq<char> {
    "EUR"@
}

/// Parsing a currency field: the sentinel means absence; a known code is a
/// value; anything else is an error, never silent absence.
pub open spec fn currency_parse(s: Seq<char>) -> Result<Option<Currency>, ()> {
    if s == null_text() {
        Ok(None)
    } else if s == "EUR"@ {
        Ok(Some(Currency::EUR))
    } else {
        Err(())
    }
}

/// The mandatory complexity grade.
#[derive(Clone, Copy, PartialEq, Eq, Structural, Debug)]
pub enum Complexity {
    Simple,
    Moderate,
    Hazardous,
}

pub open spec fn complexity_text(c: Complexity) -> Seq<char> {
    match c {
        Complexity::Simple => "Simple"@,
        Complexity::Moderate => "Moderate"@,
        Complexity::Hazardous => "Hazardous"@,
    }
}

/// Parsing a complexity field: one of the three grades, else an error.
pub open spec fn complexity_parse(s: Seq<char>) -> Result<Complexity, ()> {
    if s == "Simple"@ {
        Ok(Complexity::Simple)
    } else if s == "Moderate"@ {
        Ok(Complexity::Moderate)
    } else if s == "Hazardous"@ {
        Ok(Complexity::Hazardous)
    } else {
        Err(())
    }
}

/// Why a row was rejected.
#[derive(Debug, PartialEq)]
pub enum ParseError {
    WrongColumnCount,
    UnknownColumn(String),
    BadDate(String),
    BadNumber(String),
    BadCurrency(String),
    BadComplexity(String),
}

/// The mathematical form of a rejection.
pub enum ErrV {
    WrongColumnCount,
    UnknownColumn(Seq<char>),
    BadDate(Seq<char>),
    BadNumber(Seq<char>),
    BadCurrency(Seq<char>),
    BadComplexity(Seq<char>),
}

impl View for ParseError {
    type V = ErrV;

    open spec fn view(&self) -> ErrV {
        match self {
            ParseError::WrongColumnCount => ErrV::WrongColumnCount,
            ParseError::UnknownColumn(n) => ErrV::UnknownColumn(n@),
            ParseError::BadDate(t) => ErrV::BadDate(t@),
            ParseError::BadNumber(t) => ErrV::BadNumber(t@),
            ParseError::BadCurrency(t) => ErrV::BadCurrency(t@),
            ParseError::BadComplexity(t) => ErrV::BadComplexity(t@),
        }
    }
}

impl DeepView for ParseError {
    type V = ErrV;

    open spec fn deep_view(&self) -> ErrV {
        self.view()
    }
}

pub open spec fn error_message(e: ErrV) -> Seq<char> {
    match e {
        ErrV::WrongColumnCount => "wrong number of columns"@,
        ErrV::UnknownColumn(n) => "unknown column "@ + n,
        ErrV::BadDate(t) => "start date parse error "@ + t,
        ErrV::BadNumber(t) => "money parse error "@ + t,
        ErrV::BadCurrency(t) => "currency parse error "@ + t,
        ErrV::BadComplexity(t) => "unsupported complexity "@ + t,
    }
}

impl ParseError {
    /// The error rendered for the user.
    pub fn message(&self) -> (r: String)
        ensures
            r@ == error_message(self@),
    {
        match self {
            ParseError::WrongColumnCount => "wrong number of columns".to_owned(),
            ParseError::UnknownColumn(n) => {
                let mut s = "unknown column ".to_owned();
                s.append(n.as_str());
                s
            },
            ParseError::BadDate(t) => {
                let mut s = "start date parse error ".to_owned();
                s.append(t.as_str());
                s
            },
            ParseError::BadNumber(t) => {
                let mut s = "money parse error ".to_owned();
                s.append(t.as_str());
                s
            },
            ParseError::BadCurrency(t) => {
                let mut s = "currency parse error ".to_owned();
                s.append(t.as_str());
                s
            },
            ParseError::BadComplexity(t) => {
                let mut s = "unsupported complexity ".to_owned();
                s.append(t.as_str());
                s
            },
        }
    }
}

impl Money {
    /// An amount from a count of millionths.
    pub fn new(millionths: i64) -> (r: Money)
        requires
            millionths != i64::MIN,
        ensures
            r@ == millionths as int,
    {
        Money(millionths)
    }

    /// Parse a money field: the sentinel, or a plain signed decimal with at
    /// most six fractional digits, the representation's full precision.
    pub fn from_str(s: &str) -> (r: Result<Option<Money>, ParseError>)
        ensures
            match r {
                Ok(o) => money_parse(s@) == Ok::<Option<int>, ()>(o.deep_view()),
                Err(e) => money_parse(s@) is Err && e@ == ErrV::BadNumber(s@),
            },
            r matches Ok(Some(m)) ==> -(i64::MAX as int) <= m@ <= i64::MAX as int,
    {
        if str_eq(s, "NULL") {
            proof {
                assert(s@ == null_text());
            }
            return Ok(None);
        }
        proof {
            lemma_first_occ(money_body(s@), '.');
            lemma_pow10_table();
        }
        let len = s.unicode_len();
        let has_sign = len >= 1 && (s.get_char(0) == '-' || s.get_char(0) == '+');
        let neg = len >= 1 && s.get_char(0) == '-';
        let off: usize = if has_sign {
            1
        } else {
            0
        };
        let ghost b = money_body(s@);
        proof {
            assert(b.len() == len - off);
            assert(forall|j: int| 0 <= j < b.len() ==> #[trigger] b[j] == s@[j + off]);
        }
        // scan the whole part
        let mut i: usize = off;
        let mut acc: u64 = 0;
        loop
            invariant
                off <= i <= len,
                len == s@.len(),
                b == money_body(s@),
                b.len() == len - off,
                has_sign == (s@.len() >= 1 && (s@[0] == '-' || s@[0] == '+')),
                neg == money_neg(s@),
                off == if has_sign { 1int } else { 0int },
                s@ != null_text(),
                forall|j: int| 0 <= j < b.len() ==> #[trigger] b[j] == s@[j + off],
                forall|j: int| 0 <= j < i - off ==> b[j] != '.' && is_digit_char(#[trigger] b[j]),
                all_digits(b.subrange(0, i - off)),
                acc == digits_val(b.subrange(0, i - off)),
                acc <= i64::MAX as u64,
            ensures
                off <= i <= len,
                acc == digits_val(b.subrange(0, i - off)),
                acc <= i64::MAX as u64,
                forall|j: int| 0 <= j < i - off ==> b[j] != '.' && is_digit_char(#[trigger] b[j]),
                all_digits(b.subrange(0, i - off)),
                i == len || b[i - off] == '.' || !is_digit_char(b[i - off]),
            decreases len - i,
        {
            if i >= len {
                break;
            }
            let c = s.get_char(i);
            if c == '.' || !is_digit(c) {
                proof {
                    assert(b[i - off] == s@[i as int]);
                }
                break;
            }
            let d = (c as u32 - 48) as u64;
            proof {
                let pre = b.subrange(0, i + 1 - off);
                assert(pre.drop_last() =~= b.subrange(0, i - off));
                assert(pre.last() == b[i - off]);
                assert(b[i - off] == s@[i as int]);
                lemma_digits_val_bounds(pre);
            }
            if acc > (i64::MAX as u64 - d) / 10 {
                // the next digit pushes the whole part past the
                // representable range
                proof {
                    let q = (i64::MAX - d as int) / 10;
                    vstd::arithmetic::div_mod::lemma_fundamental_div_mod(
                        i64::MAX - d as int,
                        10,
                    );
                    assert(acc * 10 + d > i64::MAX as int) by (nonlinear_arith)
                        requires
                            acc as int >= q + 1,
                            10 * q + ((i64::MAX - d as int) % 10) == i64::MAX - d,
                            0 <= (i64::MAX - d as int) % 10 < 10,
                    ;
                    lemma_overflowing_money(s@, i - off, acc as int);
                }
                return Err(ParseError::BadNumber(s.to_owned()));
            }
            acc = acc * 10 + d;
            i = i + 1;
        }
        let whole_digits = i - off;
        if whole_digits == 0 {
            // an empty whole part breaks the shape
            proof {
                let d = first_occ(b, '.');
                if money_shape(s@) {
                    if d == b.len() {
                        assert(b.len() >= 1);
                        assert(is_digit_char(b[0]));
                        assert(b[0] == s@[off as int]);
                        assert(false);
                    } else {
                        assert(d >= 1);
                        assert(is_digit_char(b.subrange(0, d)[0]));
                        assert(false);
                    }
                }
            }
            return Err(ParseError::BadNumber(s.to_owned()));
        }
        if i == len {
            // no fractional part
            proof {
                lemma_first_occ_is(b, '.', (i - off) as int);
                assert(b.subrange(0, i - off) =~= b);
                assert(money_shape(s@));
                assert(money_mag(s@) == digits_val(b) * 1000000);
            }
            let mag: u128 = acc as u128 * 1000000u128;
            if mag > i64::MAX as u128 {
                return Err(ParseError::BadNumber(s.to_owned()));
            }
            let v: i64 = if neg {
                -(mag as i64)
            } else {
                mag as i64
            };
            proof {
                assert(money_neg(s@) == neg);
            }
            return Ok(Some(Money(v)));
        }
        // the character at i is either the point or breaks the shape
        let c = s.get_char(i);
        if c != '.' {
            proof {
                lemma_bad_char_money(s@, i - off);
            }
            return Err(ParseError::BadNumber(s.to_owned()));
        }
        proof {
            lemma_first_occ_is(b, '.', (i - off) as int);
        }
        let fstart = i + 1;
        let flen = len - fstart;
        if flen < 1 || flen > 6 {
            proof {
                assert(!money_shape(s@));
            }
            return Err(ParseError::BadNumber(s.to_owned()));
        }
        let mut j = fstart;
        while j < len && is_digit(s.get_char(j))
            invariant
                fstart <= j <= len,
                len == s@.len(),
                forall|k: int| fstart <= k < j ==> is_digit_char(#[trigger] s@[k]),
            decreases len - j,
        {
            j = j + 1;
        }
        if j < len {
            // a non-digit in the fractional part breaks the shape
            proof {
                let d = first_occ(b, '.');
                let frac = b.subrange(d + 1, b.len() as int);
                if money_shape(s@) {
                    assert(is_digit_char(frac[j - fstart]));
                    assert(frac[j - fstart] == s@[j as int]);
                    assert(false);
                }
            }
            return Err(ParseError::BadNumber(s.to_owned()));
        }
        proof {
            let d = first_occ(b, '.');
            let frac = b.subrange(d + 1, b.len() as int);
            assert forall|k: int| 0 <= k < frac.len() implies is_digit_char(
                #[trigger] frac[k],
            ) by {
                assert(frac[k] == s@[k + fstart]);
            }
            assert(money_shape(s@));
            assert(frac =~= s@.subrange(fstart as int, len as int));
            lemma_digits_val_bounds(frac);
            lemma_pow10_table();
        }
        let fval = read_num(s, fstart, len);
        let scale: u32 = pow10_small(6 - flen);
        proof {
            crate::text::lemma_pow10_mono((len - fstart) as nat, 6);
            assert(fval < 1000000);
            assert(scale <= 1000000);
            assert(fval as int * scale as int <= 1000000 * 1000000) by (nonlinear_arith)
                requires
                    0 <= fval as int <= 1000000,
                    0 <= scale as int <= 1000000,
            ;
        }
        let mag: u128 = acc as u128 * 1000000u128 + (fval as u128) * (scale as u128);
        proof {
            assert(money_mag(s@) == mag as int);
        }
        if mag > i64::MAX as u128 {
            return Err(ParseError::BadNumber(s.to_owned()));
        }
        let v: i64 = if neg {
            -(mag as i64)
        } else {
            mag as i64
        };
        proof {
            assert(money_neg(s@) == neg);
        }
        Ok(Some(Money(v)))
    }

    /// The canonical text of the amount.
    pub fn text(&self) -> (r: String)
        requires
            self.0 != i64::MIN,
        ensures
            r@ == money_format(self@),
    {
        let mut out = String::new();
        if self.0 < 0 {
            out.append("-");
            proof {
                reveal_strlit("-");
            }
        }
        let m: u64 = if self.0 < 0 {
            (-self.0) as u64
        } else {
            self.0 as u64
        };
        push_nat(&mut out, m / 1000000);
        out.append(".");
        push_num(&mut out, m % 1000000, 6);
        proof {
            reveal_strlit(".");
            assert("."@ =~= seq!['.']);
            if self.0 < 0 {
                assert("-"@ =~= seq!['-']);
            }
            assert(out@ =~= money_format(self@));
        }
        out
    }
}

/// A power of ten up to one million.
pub fn pow10_small(n: usize) -> (r: u32)
    requires
        n <= 6,
    ensures
        r == pow10(n as nat),
{
    proof {
        lemma_pow10_table();
    }
    if n == 0 {
        1
    } else if n == 1 {
        10
    } else if n == 2 {
        100
    } else if n == 3 {
        1000
    } else if n == 4 {
        10000
    } else if n == 5 {
        100000
    } else {
        1000000
    }
}

/// Extending a digit prefix that already overflows keeps the value above
/// the representable range.
proof fn lemma_overflowing_money(s: Seq<char>, scanned: int, acc: int)
    requires
        ({
            let b = money_body(s);
            &&& 0 <= scanned < b.len()
            &&& all_digits(b.subrange(0, scanned))
            &&& acc == digits_val(b.subrange(0, scanned))
            &&& b[scanned] != '.'
            &&& is_digit_char(b[scanned])
            &&& acc >= 0
            &&& acc * 10 + digit_val(b[scanned]) > i64::MAX as int
        }),
    ensures
        money_parse(s) is Err || s == null_text(),
{
    let b = money_body(s);
    if s != null_text() && money_shape(s) && money_mag(s) <= i64::MAX as int {
        let d = first_occ(b, '.');
        lemma_first_occ(b, '.');
        // the scanned prefix sits inside the whole part
        assert(scanned < d || d == b.len()) by {
            if d < scanned {
                assert(is_digit_char(b.subrange(0, scanned)[d]));
            }
            if d == scanned {
                assert(b[scanned] != '.');
            }
        }
        let whole = if d == b.len() { b } else { b.subrange(0, d) };
        assert(all_digits(whole));
        let pre = whole.subrange(0, scanned + 1);
        assert(pre.drop_last() =~= b.subrange(0, scanned));
        assert(pre.last() == b[scanned]);
        assert(digits_val(pre) == acc * 10 + digit_val(b[scanned]));
        lemma_digits_val_bounds(b.subrange(0, scanned));
        lemma_digits_val_prefix(whole, scanned + 1);
        let w = digits_val(whole);
        assert(w > i64::MAX as int);
        lemma_digits_val_bounds(whole);
        if d == b.len() {
            assert(money_mag(s) == w * 1000000);
            assert(w * 1000000 >= w) by (nonlinear_arith)
                requires
                    w >= 0,
            ;
        } else {
            let frac = b.subrange(d + 1, b.len() as int);
            lemma_digits_val_bounds(frac);
            crate::text::lemma_pow10_pos((6 - (b.len() - d - 1)) as nat);
            assert(money_mag(s) >= w * 1000000) by (nonlinear_arith)
                requires
                    money_mag(s) == w * 1000000 + digits_val(frac) * pow10(
                        (6 - (b.len() - d - 1)) as nat,
                    ),
                    digits_val(frac) >= 0,
                    pow10((6 - (b.len() - d - 1)) as nat) >= 1,
            ;
            assert(w * 1000000 >= w) by (nonlinear_arith)
                requires
                    w >= 0,
            ;
        }
        assert(false);
    }
}

/// A non-point non-digit after the whole part breaks the money shape.
proof fn lemma_bad_char_money(s: Seq<char>, scanned: int)
    requires
        ({
            let b = money_body(s);
            &&& 0 <= scanned < b.len()
            &&& all_digits(b.subrange(0, scanned))
            &&& b[scanned] != '.'
            &&& !is_digit_char(b[scanned])
        }),
    ensures
        !money_shape(s),
{
    let b = money_body(s);
    let d = first_occ(b, '.');
    lemma_first_occ(b, '.');
    if money_shape(s) {
        if d == b.len() {
            assert(is_digit_char(b[scanned]));
        } else {
            if scanned < d {
                assert(is_digit_char(b.subrange(0, d)[scanned]));
            } else if scanned == d {
                assert(b[d] == '.');
            } else {
                assert(is_digit_char(b.subrange(d + 1, b.len() as int)[scanned - d - 1]));
            }
        }
        assert(false);
    }
}

/// Round trip for money: the canonical text of a representable amount
/// parses back to the same amount.
pub proof fn lemma_money_round_trip(v: int)
    requires
        -(i64::MAX as int) <= v <= i64::MAX as int,
    ensures
        money_parse(money_format(v)) == Ok::<Option<int>, ()>(Some(v)),
{
    let s = money_format(v);
    let m = if v < 0 { -v } else { v };
    let q = m / 1000000;
    let r = m % 1000000;
    lemma_pow10_table();
    lemma_nat_str_shape(q);
    lemma_nat_str_val(q);
    lemma_num_str_shape(r, 6);
    lemma_num_str_val(r, 6);
    let b = money_body(s);
    if v < 0 {
        assert(s[0] == '-');
        assert(b =~= nat_str(q) + seq!['.'] + num_str(r, 6));
    } else {
        assert(is_digit_char(s[0])) by {
            assert(s[0] == nat_str(q)[0]);
        }
        assert(s[0] != '-' && s[0] != '+');
        assert(b =~= nat_str(q) + seq!['.'] + num_str(r, 6));
    }
    // the text is not the sentinel
    assert(s != null_text()) by {
        reveal_strlit("NULL");
        if s == null_text() {
            assert(s[0] == 'N');
            if v < 0 {
            } else {
                assert(is_digit_char('N'));
            }
        }
    }
    // the point falls right after the whole part
    let nq = nat_str(q).len() as int;
    assert(first_occ(b, '.') == nq) by {
        assert forall|j: int| 0 <= j < nq implies #[trigger] b[j] != '.' by {
            assert(b[j] == nat_str(q)[j]);
            assert(is_digit_char(nat_str(q)[j]));
        }
        assert(b[nq] == '.');
        lemma_first_occ_is(b, '.', nq);
    }
    assert(b.subrange(0, nq) =~= nat_str(q));
    assert(b.subrange(nq + 1, b.len() as int) =~= num_str(r, 6));
    assert(money_shape(s));
    assert(money_mag(s) == q * 1000000 + r * pow10(0));
    assert(q * 1000000 + r == m) by (nonlinear_arith)
        requires
            q == m / 1000000,
            r == m % 1000000,
            m >= 0,
    ;
    assert(money_mag(s) == m);
    assert(money_neg(s) == (v < 0)) by {
        if v >= 0 {
            assert(s[0] != '-');
        }
    }
}

impl Currency {
    /// Parse a currency field.
    pub fn from_str(s: &str) -> (r: Result<Option<Currency>, ParseError>)
        ensures
            match r {
                Ok(o) => currency_parse(s@) == Ok::<Option<Currency>, ()>(o),
                Err(e) => currency_parse(s@) is Err && e@ == ErrV::BadCurrency(s@),
            },
    {
        if str_eq(s, "NULL") {
            Ok(None)
        } else if str_eq(s, "EUR") {
            Ok(Some(Currency::EUR))
        } else {
            Err(ParseError::BadCurrency(s.to_owned()))
        }
    }

    /// The currency code.
    pub fn text(&self) -> (r: String)
        ensures
            r@ == currency_text(*self),
    {
        "EUR".to_owned()
    }
}

impl Complexity {
    /// Parse a complexity field.
    pub fn from_str(s: &str) -> (r: Result<Complexity, ParseError>)
        ensures
            match r {
                Ok(c) => complexity_parse(s@) == Ok::<Complexity, ()>(c),
                Err(e) => complexity_parse(s@) is Err && e@ == ErrV::BadComplexity(s@),
            },
    {
        if str_eq(s, "Simple") {
            Ok(Complexity::Simple)
        } else if str_eq(s, "Moderate") {
            Ok(Complexity::Moderate)
        } else if str_eq(s, "Hazardous") {
            Ok(Complexity::Hazardous)
        } else {
            Err(ParseError::BadComplexity(s.to_owned()))
        }
    }

    /// The grade's name.
    pub fn text(&self) -> (r: String)
        ensures
            r@ == complexity_text(*self),
    {
        match self {
            Complexity::Simple => "Simple".to_owned(),
            Complexity::Moderate => "Moderate".to_owned(),
            Complexity::Hazardous => "Hazardous".to_owned(),
        }
    }
}

/// One validated record.
#[derive(Debug, PartialEq)]
pub struct Project {
    pub id: String,
    pub description: String,
    pub start_date: StartDate,
    pub category: String,
    pub responsible: String,
    pub savings_amount: Option<Money>,
    pub currency: Option<Currency>,
    pub complexity: Complexity,
}

/// The mathematical form of a record.
pub struct ProjectV {
    pub id: Seq<char>,
    pub description: Seq<char>,
    pub start_date: StartDate,
    pub category: Seq<char>,
    pub responsible: Seq<char>,
    pub savings_amount: Option<int>,
    pub currency: Option<Currency>,
    pub complexity: Complexity,
}

impl View for Project {
    type V = ProjectV;

    open spec fn view(&self) -> ProjectV {
        ProjectV {
            id: self.id@,
            description: self.description@,
            start_date: self.start_date,
            category: self.category@,
            responsible: self.responsible@,
            savings_amount: self.savings_amount.deep_view(),
            currency: self.currency,
            complexity: self.complexity,
        }
    }
}

impl DeepView for Project {
    type V = ProjectV;

    open spec fn deep_view(&self) -> ProjectV {
        self.view()
    }
}

impl Clone for Project {
    fn clone(&self) -> (r: Self)
        ensures
            r == *self,
    {
        Project {
            id: self.id.clone(),
            description: self.description.clone(),
            start_date: self.start_date,
            category: self.category.clone(),
            responsible: self.responsible.clone(),
            savings_amount: self.savings_amount,
            currency: self.currency,
            complexity: self.complexity,
        }
    }
}

/// A record whose typed fields are in range: the date names a real calendar
/// day and the amount is representable.
pub open spec fn project_wf(p: ProjectV) -> bool {
    &&& date_valid(p.start_date)
    &&& match p.savings_amount {
        Some(v) => -(i64::MAX as int) <= v <= i64::MAX as int,
        None => true,
    }
}

/// Parsing a canonically ordered list of raw fields: exactly eight fields,
/// each obeying its grammar; the first failing field, checked in the order
/// date, amount, currency, complexity, names the error.
pub open spec fn parse_record_spec(f: Seq<Seq<char>>) -> Result<ProjectV, ErrV> {
    if f.len() != 8 {
        Err(ErrV::WrongColumnCount)
    } else if date_parse(f[2]) is None {
        Err(ErrV::BadDate(f[2]))
    } else if money_parse(f[5]) is Err {
        Err(ErrV::BadNumber(f[5]))
    } else if currency_parse(f[6]) is Err {
        Err(ErrV::BadCurrency(f[6]))
    } else if complexity_parse(f[7]) is Err {
        Err(ErrV::BadComplexity(f[7]))
    } else {
        Ok(
            ProjectV {
                id: f[0],
                description: f[1],
                start_date: date_parse(f[2])->0,
                category: f[3],
                responsible: f[4],
                savings_amount: money_parse(f[5])->Ok_0,
                currency: currency_parse(f[6])->Ok_0,
                complexity: complexity_parse(f[7])->Ok_0,
            },
        )
    }
}

impl Project {
    /// Parse one canonically ordered row of eight raw fields.
    pub fn new(record: Vec<&str>) -> (r: Result<Project, ParseError>)
        ensures
            match r {
                Ok(p) => parse_record_spec(record.deep_view()) == Ok::<ProjectV, ErrV>(p@)
                    && project_wf(p@),
                Err(e) => parse_record_spec(record.deep_view()) == Err::<ProjectV, ErrV>(e@),
            },
    {
        let ghost f = record.deep_view();
        proof {
            assert(f.len() == record@.len());
            assert(forall|i: int| 0 <= i < f.len() ==> f[i] == #[trigger] record@[i]@);
        }
        if record.len() != 8 {
            return Err(ParseError::WrongColumnCount);
        }
        let start_date = match parse_start_date(record[2]) {
            Some(d) => d,
            None => {
                return Err(ParseError::BadDate(record[2].to_owned()));
            },
        };
        let savings_amount = match Money::from_str(record[5]) {
            Ok(v) => v,
            Err(e) => {
                return Err(e);
            },
        };
        let currency = match Currency::from_str(record[6]) {
            Ok(v) => v,
            Err(e) => {
                return Err(e);
            },
        };
        let complexity = match Complexity::from_str(record[7]) {
            Ok(v) => v,
            Err(e) => {
                return Err(e);
            },
        };
        let p = Project {
            id: record[0].to_owned(),
            description: record[1].to_owned(),
            start_date,
            category: record[3].to_owned(),
            responsible: record[4].to_owned(),
            savings_amount,
            currency,
            complexity,
        };
        proof {
            assert(parse_record_spec(f) is Ok);
            assert(parse_record_spec(f)->Ok_0 == p@);
        }
        Ok(p)
    }

    /// Whether the record's typed fields are in range.
    pub fn is_well_formed(&self) -> (r: bool)
        ensures
            r == project_wf(self@),
    {
        let d = &self.start_date;
        let date_ok = d.year <= 9999 && 1 <= d.month && d.month <= 12 && 1 <= d.day && d.day
            <= crate::date::days_in_month_exec(d.year, d.month) && d.hour <= 23 && d.minute <= 59
            && d.second <= 59 && d.millisecond <= 999;
        let amount_ok = match &self.savings_amount {
            Some(m) => m.0 != i64::MIN,
            None => true,
        };
        date_ok && amount_ok
    }

    /// The canonical text of the field at canonical index `k`.
    pub fn format_field(&self, k: usize) -> (r: String)
        requires
            k < 8,
            project_wf(self@),
        ensures
            r@ == format_record(self@)[k as int],
    {
        if k == 0 {
            self.id.clone()
        } else if k == 1 {
            self.description.clone()
        } else if k == 2 {
            let mut out = String::new();
            push_date(&mut out, &self.start_date);
            proof {
                assert(out@ =~= date_format(self.start_date));
            }
            out
        } else if k == 3 {
            self.category.clone()
        } else if k == 4 {
            self.responsible.clone()
        } else if k == 5 {
            match &self.savings_amount {
                Some(m) => m.text(),
                None => String::new(),
            }
        } else if k == 6 {
            match &self.currency {
                Some(c) => c.text(),
                None => String::new(),
            }
        } else {
            self.complexity.text()
        }
    }

    /// The record as pairs of canonical column name and canonical field
    /// text, in canonical order; absent optional fields render empty.
    pub fn as_dic(&self) -> (r: Vec<(String, String)>)
        requires
            project_wf(self@),
        ensures
            r@.len() == 8,
            forall|k: int|
                0 <= k < 8 ==> (#[trigger] r@[k]).0@ == column_names()[k] && r@[k].1@
                    == format_record(self@)[k],
    {
        let mut out: Vec<(String, String)> = Vec::new();
        let mut k: usize = 0;
        while k < 8
            invariant
                0 <= k <= 8,
                out@.len() == k,
                project_wf(self@),
                forall|j: int|
                    0 <= j < k ==> (#[trigger] out@[j]).0@ == column_names()[j] && out@[j].1@
                        == format_record(self@)[j],
            decreases 8 - k,
        {
            out.push((column_name(k).to_owned(), self.format_field(k)));
            k = k + 1;
        }
        out
    }
}

/// The canonical texts of a record's eight fields in canonical order;
/// absent optional fields render as the empty string.
pub open spec fn format_record(p: ProjectV) -> Seq<Seq<char>> {
    seq![
        p.id,
        p.description,
        date_format(p.start_date),
        p.category,
        p.responsible,
        match p.savings_amount {
            Some(v) => money_format(v),
            None => Seq::<char>::empty(),
        },
        match p.currency {
            Some(c) => currency_text(c),
            None => Seq::<char>::empty(),
        },
        complexity_text(p.complexity),
    ]
}

/// Round trip for a whole record: formatting a well-formed record whose
/// optional fields are both present and parsing the fields back yields the
/// same record. An absent optional field renders as the empty string, which
/// is not the input sentinel, so such records are outside this law.
#[verifier::rlimit(50)]
pub proof fn lemma_record_round_trip(p: ProjectV)
    requires
        project_wf(p),
        p.savings_amount is Some,
        p.currency is Some,
    ensures
        parse_record_spec(format_record(p)) == Ok::<ProjectV, ErrV>(p),
{
    let f = format_record(p);
    assert(f.len() == 8);
    assert(f[0] == p.id);
    assert(f[1] == p.description);
    assert(f[2] == date_format(p.start_date));
    assert(f[3] == p.category);
    assert(f[4] == p.responsible);
    assert(f[5] == money_format(p.savings_amount->0));
    assert(f[6] == currency_text(p.currency->0));
    assert(f[7] == complexity_text(p.complexity));
    lemma_date_round_trip(p.start_date);
    assert(date_parse(f[2]) == Some(p.start_date));
    lemma_money_round_trip(p.savings_amount->0);
    assert(money_parse(f[5]) == Ok::<Option<int>, ()>(Some(p.savings_amount->0)));
    lemma_currency_round_trip(p.currency->0);
    assert(currency_parse(f[6]) == Ok::<Option<Currency>, ()>(Some(p.currency->0)));
    lemma_complexity_round_trip(p.complexity);
    assert(complexity_parse(f[7]) == Ok::<Complexity, ()>(p.complexity));
    assert(parse_record_spec(f) is Ok);
    assert(parse_record_spec(f)->Ok_0 == p);
}

/// A parsed amount lies within the representable range.
pub proof fn lemma_money_parse_bounds(s: Seq<char>)
    ensures
        (match money_parse(s) {
            Ok(Some(v)) => -(i64::MAX as int) <= v <= i64::MAX as int,
            _ => true,
        }),
{
    if s != null_text() && money_shape(s) && money_mag(s) <= i64::MAX as int {
        let b = money_body(s);
        let d = first_occ(b, '.');
        lemma_first_occ(b, '.');
        if d == b.len() {
            lemma_digits_val_bounds(b);
            assert(digits_val(b) * 1000000 >= 0) by (nonlinear_arith)
                requires
                    digits_val(b) >= 0,
            ;
        } else {
            lemma_digits_val_bounds(b.subrange(0, d));
            lemma_digits_val_bounds(b.subrange(d + 1, b.len() as int));
            crate::text::lemma_pow10_pos((6 - (b.len() - d - 1)) as nat);
            assert(money_mag(s) >= 0) by (nonlinear_arith)
                requires
                    digits_val(b.subrange(0, d)) >= 0,
                    digits_val(b.subrange(d + 1, b.len() as int)) >= 0,
                    pow10((6 - (b.len() - d - 1)) as nat) >= 1,
                    money_mag(s) == digits_val(b.subrange(0, d)) * 1000000 + digits_val(
                        b.subrange(d + 1, b.len() as int),
                    ) * pow10((6 - (b.len() - d - 1)) as nat),
            ;
        }
    }
}

/// A successfully parsed record is well formed.
pub proof fn lemma_parse_record_wf(f: Seq<Seq<char>>)
    ensures
        parse_record_spec(f) is Ok ==> project_wf(parse_record_spec(f)->Ok_0),
{
    if parse_record_spec(f) is Ok {
        lemma_money_parse_bounds(f[5]);
    }
}

/// Round trip for the currency code.
pub proof fn lemma_currency_round_trip(c: Currency)
    ensures
        currency_parse(currency_text(c)) == Ok::<Option<Currency>, ()>(Some(c)),
{
    reveal_strlit("NULL");
    reveal_strlit("EUR");
    assert("EUR"@.len() == 3);
    assert(null_text().len() == 4);
    assert(currency_text(c) != null_text());
}

/// Round trip for the complexity grade.
pub proof fn lemma_complexity_round_trip(c: Complexity)
    ensures
        complexity_parse(complexity_text(c)) == Ok::<Complexity, ()>(c),
{
    reveal_strlit("Simple");
    reveal_strlit("Moderate");
    reveal_strlit("Hazardous");
    assert("Simple"@.len() == 6);
    assert("Moderate"@.len() == 8);
    assert("Hazardous"@.len() == 9);
}

} // verus!
