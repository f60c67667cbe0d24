//! Character and string helpers shared by the field grammars and the codec:
//! digit arithmetic, whitespace trimming, splitting on tabs and joining with
//! tabs, all specified over `Seq<char>`.

use vstd::prelude::*;

verus! {

/// A character of the Unicode white-space set, as fields and lines are
/// trimmed of it.
pub open spec fn is_space_char(c: char) -> bool {
    let u = c as u32;
    ||| (0x9 <= u && u <= 0xd)
    ||| u == 0x20
    ||| u == 0x85
    ||| u == 0xa0
    ||| u == 0x1680
    ||| (0x2000 <= u && u <= 0x200a)
    ||| u == 0x2028
    ||| u == 0x2029
    ||| u == 0x202f
    ||| u == 0x205f
    ||| u == 0x3000
}

/// An ASCII decimal digit.
pub open spec fn is_digit_char(c: char) -> bool {
    48 <= c as u32 && c as u32 <= 57
}

/// The numeric value of an ASCII digit.
pub open spec fn digit_val(c: char) -> int {
    c as u32 - 48
}

pub open spec fn all_digits(s: Seq<char>) -> bool {
    forall|i: int| 0 <= i < s.len() ==> is_digit_char(#[trigger] s[i])
}

/// The value of a digit string read most significant digit first.
pub open spec fn digits_val(s: Seq<char>) -> int
    decreases s.len(),
{
    if s.len() == 0 {
        0
    } else {
        digits_val(s.drop_last()) * 10 + digit_val(s.last())
    }
}

pub open spec fn pow10(n: nat) -> int
    decreases n,
{
    if n == 0 {
        1
    } else {
        10 * pow10((n - 1) as nat)
    }
}

/// The digit character for a value between 0 and 9.
pub open spec fn digit_char_spec(d: int) -> char {
    if d == 0 {
        '0'
    } else if d == 1 {
        '1'
    } else if d == 2 {
        '2'
    } else if d == 3 {
        '3'
    } else if d == 4 {
        '4'
    } else if d == 5 {
        '5'
    } else if d == 6 {
        '6'
    } else if d == 7 {
        '7'
    } else if d == 8 {
        '8'
    } else {
        '9'
    }
}

/// The decimal digits of `v`, zero padded on the left to exactly `width`
/// characters; digits beyond the width are cut.
pub open spec fn num_str(v: int, width: nat) -> Seq<char>
    decreases width,
{
    if width == 0 {
        Seq::empty()
    } else {
        num_str(v / 10, (width - 1) as nat).push(digit_char_spec(v % 10))
    }
}

/// The decimal digits of a non-negative `v` without padding; a single zero
/// for zero.
pub open spec fn nat_str(v: int) -> Seq<char>
    decreases v,
{
    if v <= 9 {
        seq![digit_char_spec(v)]
    } else {
        nat_str(v / 10).push(digit_char_spec(v % 10))
    }
}

pub proof fn lemma_digit_char(d: int)
    requires
        0 <= d <= 9,
    ensures
        is_digit_char(digit_char_spec(d)),
        digit_val(digit_char_spec(d)) == d,
{
}

pub proof fn lemma_digits_val_bounds(s: Seq<char>)
    requires
        all_digits(s),
    ensures
        0 <= digits_val(s) < pow10(s.len()),
    decreases s.len(),
{
    if s.len() > 0 {
        lemma_digits_val_bounds(s.drop_last());
        let p = pow10((s.len() - 1) as nat);
        let q = digits_val(s.drop_last());
        assert(is_digit_char(s.last()));
        assert(q * 10 + digit_val(s.last()) < p * 10) by (nonlinear_arith)
            requires
                0 <= q < p,
                digit_val(s.last()) < 10,
        ;
        assert(q * 10 + digit_val(s.last()) >= 0) by (nonlinear_arith)
            requires
                q >= 0,
                digit_val(s.last()) >= 0,
        ;
    }
}

pub proof fn lemma_num_str_shape(v: int, width: nat)
    ensures
        num_str(v, width).len() == width,
        v >= 0 ==> all_digits(num_str(v, width)),
    decreases width,
{
    if width > 0 {
        lemma_num_str_shape(v / 10, (width - 1) as nat);
        if v >= 0 {
            lemma_digit_char(v % 10);
            let s = num_str(v, width);
            assert forall|i: int| 0 <= i < s.len() implies is_digit_char(#[trigger] s[i]) by {
                if i < width - 1 {
                    assert(s[i] == num_str(v / 10, (width - 1) as nat)[i]);
                }
            }
        }
    }
}

pub proof fn lemma_num_str_val(v: int, width: nat)
    requires
        0 <= v < pow10(width),
    ensures
        digits_val(num_str(v, width)) == v,
    decreases width,
{
    if width == 0 {
    } else {
        let hi = v / 10;
        assert(0 <= hi < pow10((width - 1) as nat)) by (nonlinear_arith)
            requires
                0 <= v < 10 * pow10((width - 1) as nat),
                hi == v / 10,
                pow10((width - 1) as nat) > 0,
        ;
        lemma_num_str_val(hi, (width - 1) as nat);
        lemma_num_str_shape(hi, (width - 1) as nat);
        lemma_digit_char(v % 10);
        let s = num_str(v, width);
        assert(s.drop_last() =~= num_str(hi, (width - 1) as nat));
        assert(digits_val(s) == hi * 10 + v % 10);
        assert(hi * 10 + v % 10 == v) by (nonlinear_arith)
            requires
                hi == v / 10,
                v >= 0,
        ;
    }
}

pub proof fn lemma_pow10_pos(n: nat)
    ensures
        pow10(n) >= 1,
    decreases n,
{
    if n > 0 {
        lemma_pow10_pos((n - 1) as nat);
    }
}

pub proof fn lemma_nat_str_shape(v: int)
    requires
        v >= 0,
    ensures
        nat_str(v).len() >= 1,
        all_digits(nat_str(v)),
    decreases v,
{
    if v <= 9 {
        lemma_digit_char(v);
    } else {
        lemma_nat_str_shape(v / 10);
        lemma_digit_char(v % 10);
        let s = nat_str(v);
        assert forall|i: int| 0 <= i < s.len() implies is_digit_char(#[trigger] s[i]) by {
            if i < s.len() - 1 {
                assert(s[i] == nat_str(v / 10)[i]);
            }
        }
    }
}

pub proof fn lemma_nat_str_val(v: int)
    requires
        v >= 0,
    ensures
        digits_val(nat_str(v)) == v,
    decreases v,
{
    if v <= 9 {
        lemma_digit_char(v);
        let s = nat_str(v);
        assert(s.drop_last() =~= Seq::<char>::empty());
        assert(digits_val(Seq::<char>::empty()) == 0);
        assert(s.last() == digit_char_spec(v));
        assert(digits_val(s) == digits_val(s.drop_last()) * 10 + digit_val(s.last()));
    } else {
        lemma_nat_str_val(v / 10);
        lemma_digit_char(v % 10);
        let s = nat_str(v);
        assert(s.drop_last() =~= nat_str(v / 10));
        assert(digits_val(s) == (v / 10) * 10 + v % 10);
        assert((v / 10) * 10 + v % 10 == v) by (nonlinear_arith)
            requires
                v >= 0,
        ;
    }
}

/// Appending digits to a digit string never lowers its value.
pub proof fn lemma_digits_val_prefix(s: Seq<char>, i: int)
    requires
        all_digits(s),
        0 <= i <= s.len(),
    ensures
        digits_val(s) >= digits_val(s.subrange(0, i)),
    decreases s.len(),
{
    lemma_digits_val_bounds(s);
    if i < s.len() {
        assert(all_digits(s.drop_last())) by {
            assert(forall|j: int|
                0 <= j < s.len() - 1 ==> #[trigger] s.drop_last()[j] == s[j]);
        }
        lemma_digits_val_prefix(s.drop_last(), i);
        assert(s.drop_last().subrange(0, i) =~= s.subrange(0, i));
        lemma_digits_val_bounds(s.drop_last());
        let q = digits_val(s.drop_last());
        assert(q * 10 >= q) by (nonlinear_arith)
            requires
                q >= 0,
        ;
        assert(is_digit_char(s.last()));
    } else {
        assert(s.subrange(0, i) =~= s);
    }
}

/// A vector's deep view is its elements' deep views, index by index.
pub proof fn lemma_vec_deep<T: DeepView>(v: Vec<T>)
    ensures
        v.deep_view().len() == v@.len(),
        forall|i: int| 0 <= i < v@.len() ==> #[trigger] v.deep_view()[i] == v@[i].deep_view(),
{
}

/// A slice's deep view is its elements' deep views, index by index.
pub proof fn lemma_slice_deep<T: DeepView>(v: &[T])
    ensures
        v.deep_view().len() == v@.len(),
        forall|i: int| 0 <= i < v@.len() ==> #[trigger] v.deep_view()[i] == v@[i].deep_view(),
{
}

/// Borrow each string of a vector as a slice.
pub fn str_refs<'a>(v: &'a Vec<String>) -> (r: Vec<&'a str>)
    ensures
        r.deep_view() == v.deep_view(),
{
    let mut out: Vec<&str> = Vec::new();
    let n = v.len();
    let mut i: usize = 0;
    while i < n
        invariant
            0 <= i <= n,
            n == v@.len(),
            out@.len() == i,
            forall|x: int| 0 <= x < i ==> (#[trigger] out@[x])@ == v@[x]@,
        decreases n - i,
    {
        out.push(v[i].as_str());
        i = i + 1;
    }
    proof {
        lemma_vec_deep(*v);
        lemma_vec_deep(out);
        assert(out.deep_view() =~= v.deep_view());
    }
    out
}

/// The index of the first occurrence of `c`, or the length when absent.
pub open spec fn first_occ(s: Seq<char>, c: char) -> int
    decreases s.len(),
{
    if s.len() == 0 {
        0
    } else if s[0] == c {
        0
    } else {
        1 + first_occ(s.drop_first(), c)
    }
}

pub proof fn lemma_first_occ(s: Seq<char>, c: char)
    ensures
        0 <= first_occ(s, c) <= s.len(),
        forall|j: int| 0 <= j < first_occ(s, c) ==> #[trigger] s[j] != c,
        first_occ(s, c) < s.len() ==> s[first_occ(s, c)] == c,
    decreases s.len(),
{
    if s.len() > 0 && s[0] != c {
        lemma_first_occ(s.drop_first(), c);
        let d = s.drop_first();
        assert(forall|j: int| 0 <= j < d.len() ==> #[trigger] d[j] == s[j + 1]);
        assert forall|j: int| 0 <= j < first_occ(s, c) implies #[trigger] s[j] != c by {
            if j > 0 {
                assert(d[j - 1] != c);
            }
        }
        if first_occ(s, c) < s.len() {
            assert(d[first_occ(s, c) - 1] == c);
        }
    }
}

/// The first occurrence is pinned by its characterization.
pub proof fn lemma_first_occ_is(s: Seq<char>, c: char, k: int)
    requires
        0 <= k <= s.len(),
        forall|j: int| 0 <= j < k ==> #[trigger] s[j] != c,
        k < s.len() ==> s[k] == c,
    ensures
        first_occ(s, c) == k,
{
    lemma_first_occ(s, c);
    if first_occ(s, c) < k {
        assert(s[first_occ(s, c)] != c);
    }
    if first_occ(s, c) > k {
        assert(s[k] != c);
    }
}

/// The count of leading whitespace characters.
pub open spec fn leading_spaces(s: Seq<char>) -> int
    decreases s.len(),
{
    if s.len() == 0 {
        0
    } else if is_space_char(s[0]) {
        1 + leading_spaces(s.drop_first())
    } else {
        0
    }
}

/// The count of trailing whitespace characters.
pub open spec fn trailing_spaces(s: Seq<char>) -> int
    decreases s.len(),
{
    if s.len() == 0 {
        0
    } else if is_space_char(s.last()) {
        1 + trailing_spaces(s.drop_last())
    } else {
        0
    }
}

/// `s` with leading and trailing whitespace removed.
pub open spec fn trim_spec(s: Seq<char>) -> Seq<char> {
    if leading_spaces(s) == s.len() {
        Seq::empty()
    } else {
        s.subrange(leading_spaces(s), s.len() - trailing_spaces(s))
    }
}

pub proof fn lemma_leading_spaces(s: Seq<char>)
    ensures
        0 <= leading_spaces(s) <= s.len(),
        forall|j: int| 0 <= j < leading_spaces(s) ==> is_space_char(#[trigger] s[j]),
        leading_spaces(s) < s.len() ==> !is_space_char(s[leading_spaces(s)]),
    decreases s.len(),
{
    if s.len() > 0 && is_space_char(s[0]) {
        lemma_leading_spaces(s.drop_first());
        assert forall|j: int| 0 <= j < leading_spaces(s) implies is_space_char(
            #[trigger] s[j],
        ) by {
            if j > 0 {
                assert(is_space_char(s.drop_first()[j - 1]));
                assert(s.drop_first()[j - 1] == s[j]);
            }
        }
        if leading_spaces(s) < s.len() {
            assert(!is_space_char(s.drop_first()[leading_spaces(s) - 1]));
            assert(s.drop_first()[leading_spaces(s) - 1] == s[leading_spaces(s)]);
        }
    }
}

pub proof fn lemma_trailing_spaces(s: Seq<char>)
    ensures
        0 <= trailing_spaces(s) <= s.len(),
        forall|j: int|
            s.len() - trailing_spaces(s) <= j < s.len() ==> is_space_char(#[trigger] s[j]),
        trailing_spaces(s) < s.len() ==> !is_space_char(s[s.len() - trailing_spaces(s) - 1]),
    decreases s.len(),
{
    if s.len() > 0 && is_space_char(s.last()) {
        lemma_trailing_spaces(s.drop_last());
        let d = s.drop_last();
        assert(forall|j: int| 0 <= j < s.len() - 1 ==> #[trigger] d[j] == s[j]);
        assert forall|j: int| s.len() - trailing_spaces(s) <= j < s.len() implies is_space_char(
            #[trigger] s[j],
        ) by {
            if j < s.len() - 1 {
                assert(is_space_char(d[j]));
            }
        }
        if trailing_spaces(s) < s.len() {
            assert(!is_space_char(d[d.len() - trailing_spaces(d) - 1]));
        }
    }
}

/// When some character is not whitespace, the trimmed ends cannot cross.
pub proof fn lemma_trim_bounds(s: Seq<char>)
    requires
        leading_spaces(s) < s.len(),
    ensures
        leading_spaces(s) + trailing_spaces(s) < s.len(),
{
    lemma_leading_spaces(s);
    lemma_trailing_spaces(s);
    if s.len() - trailing_spaces(s) <= leading_spaces(s) {
        assert(is_space_char(s[leading_spaces(s)]));
    }
}

/// Whether `c` is a character of the Unicode white-space set.
pub fn is_space(c: char) -> (r: bool)
    ensures
        r == is_space_char(c),
{
    let u = c as u32;
    (0x9 <= u && u <= 0xd) || u == 0x20 || u == 0x85 || u == 0xa0 || u == 0x1680 || (0x2000 <= u
        && u <= 0x200a) || u == 0x2028 || u == 0x2029 || u == 0x202f || u == 0x205f || u == 0x3000
}

/// Whether `c` is an ASCII decimal digit.
pub fn is_digit(c: char) -> (r: bool)
    ensures
        r == is_digit_char(c),
{
    let u = c as u32;
    48 <= u && u <= 57
}

/// Whether two string slices hold the same characters.
pub fn str_eq(a: &str, b: &str) -> (r: bool)
    ensures
        r == (a@ == b@),
{
    let alen = a.unicode_len();
    let blen = b.unicode_len();
    if alen != blen {
        return false;
    }
    let mut i: usize = 0;
    while i < alen
        invariant
            alen == a@.len(),
            blen == b@.len(),
            alen == blen,
            0 <= i <= alen,
            forall|j: int| 0 <= j < i ==> a@[j] == b@[j],
        decreases alen - i,
    {
        if a.get_char(i) != b.get_char(i) {
            return false;
        }
        i = i + 1;
    }
    proof {
        assert(a@ =~= b@);
    }
    true
}

/// `s` without its leading and trailing whitespace.
pub fn trim(s: &str) -> (r: &str)
    ensures
        r@ == trim_spec(s@),
{
    proof {
        lemma_leading_spaces(s@);
        lemma_trailing_spaces(s@);
    }
    let len = s.unicode_len();
    let mut lo: usize = 0;
    while lo < len && is_space(s.get_char(lo))
        invariant
            len == s@.len(),
            0 <= lo <= len,
            forall|j: int| 0 <= j < lo ==> is_space_char(#[trigger] s@[j]),
        decreases len - lo,
    {
        lo = lo + 1;
    }
    proof {
        if lo < leading_spaces(s@) {
            assert(is_space_char(s@[lo as int]));
            assert(false);
        }
        if lo > leading_spaces(s@) {
            assert(is_space_char(s@[leading_spaces(s@)]));
            assert(false);
        }
    }
    if lo == len {
        let r = s.substring_char(len, len);
        proof {
            assert(r@ =~= trim_spec(s@));
        }
        return r;
    }
    proof {
        lemma_trim_bounds(s@);
    }
    let mut hi: usize = len;
    while hi > lo && is_space(s.get_char(hi - 1))
        invariant
            len == s@.len(),
            lo <= hi <= len,
            lo == leading_spaces(s@),
            lo < len,
            forall|j: int| hi <= j < len ==> is_space_char(#[trigger] s@[j]),
        decreases hi,
    {
        hi = hi - 1;
    }
    proof {
        let t = trailing_spaces(s@);
        if hi < s@.len() - t {
            assert(is_space_char(s@[s@.len() - t - 1]));
            assert(false);
        }
        if hi > s@.len() - t {
            // the loop stopped at hi > lo with a non-space at hi - 1,
            // or at hi == lo, where s[lo] is not a space
            if hi > lo {
                assert(is_space_char(s@[hi - 1]));
                assert(false);
            } else {
                assert(is_space_char(s@[lo as int]));
                assert(false);
            }
        }
    }
    s.substring_char(lo, hi)
}

/// Splitting on tabs: every maximal tab-free run, in order; one field more
/// than there are tabs.
pub open spec fn split_tabs_spec(s: Seq<char>) -> Seq<Seq<char>>
    decreases s.len(),
{
    if s.len() == 0 {
        seq![Seq::empty()]
    } else if s[0] == '\t' {
        seq![Seq::<char>::empty()] + split_tabs_spec(s.drop_first())
    } else {
        let rest = split_tabs_spec(s.drop_first());
        seq![seq![s[0]] + rest[0]] + rest.drop_first()
    }
}

pub proof fn lemma_split_nonempty(s: Seq<char>)
    ensures
        split_tabs_spec(s).len() >= 1,
    decreases s.len(),
{
    if s.len() > 0 {
        lemma_split_nonempty(s.drop_first());
    }
}

/// A tab-free string splits into just itself.
pub proof fn lemma_split_no_tab(s: Seq<char>)
    requires
        forall|j: int| 0 <= j < s.len() ==> s[j] != '\t',
    ensures
        split_tabs_spec(s) =~= seq![s],
    decreases s.len(),
{
    if s.len() > 0 {
        assert(s[0] != '\t');
        assert(forall|j: int|
            0 <= j < s.len() - 1 ==> #[trigger] s.drop_first()[j] == s[j + 1]);
        lemma_split_no_tab(s.drop_first());
        let rest = split_tabs_spec(s.drop_first());
        assert(rest =~= seq![s.drop_first()]);
        assert(seq![s[0]] + rest[0] =~= s);
        assert(rest.drop_first() =~= Seq::<Seq<char>>::empty());
        assert(split_tabs_spec(s) == seq![seq![s[0]] + rest[0]] + rest.drop_first());
        assert(split_tabs_spec(s) =~= seq![s]);
    } else {
        assert(s =~= Seq::<char>::empty());
        assert(split_tabs_spec(s) =~= seq![s]);
    }
}

/// Splitting at the first tab: the tab-free head becomes the first field.
pub proof fn lemma_split_head(s: Seq<char>, i: int)
    requires
        0 <= i < s.len(),
        s[i] == '\t',
        forall|j: int| 0 <= j < i ==> s[j] != '\t',
    ensures
        split_tabs_spec(s) =~= seq![s.subrange(0, i)] + split_tabs_spec(
            s.subrange(i + 1, s.len() as int),
        ),
    decreases s.len(),
{
    lemma_split_nonempty(s.drop_first());
    if i == 0 {
        assert(s.drop_first() =~= s.subrange(1, s.len() as int));
        assert(s.subrange(0, 0) =~= Seq::<char>::empty());
    } else {
        let d = s.drop_first();
        assert(forall|j: int| 0 <= j < d.len() ==> #[trigger] d[j] == s[j + 1]);
        lemma_split_head(d, i - 1);
        let rest = split_tabs_spec(d);
        let tail = split_tabs_spec(d.subrange(i, d.len() as int));
        assert(rest =~= seq![d.subrange(0, i - 1)] + tail);
        assert(rest[0] == d.subrange(0, i - 1));
        assert(seq![s[0]] + d.subrange(0, i - 1) =~= s.subrange(0, i));
        assert(rest.drop_first() =~= tail);
        assert(d.subrange(i, d.len() as int) =~= s.subrange(i + 1, s.len() as int));
    }
}

/// The fields of one row: split on tabs, each field trimmed.
pub open spec fn row_fields(s: Seq<char>) -> Seq<Seq<char>> {
    split_tabs_spec(s).map_values(|f: Seq<char>| trim_spec(f))
}

/// Split a row on tabs and trim each field.
pub fn split_row(s: &str) -> (r: Vec<String>)
    ensures
        r.deep_view() == row_fields(s@),
{
    let len = s.unicode_len();
    let mut out: Vec<String> = Vec::new();
    let ghost mut u: Seq<Seq<char>> = Seq::empty();
    let mut start: usize = 0;
    proof {
        assert(s@.subrange(0, len as int) =~= s@);
        assert(split_tabs_spec(s@) =~= u + split_tabs_spec(s@.subrange(0, len as int)));
        assert(out.deep_view() =~= u.map_values(|f: Seq<char>| trim_spec(f)));
    }
    loop
        invariant_except_break
            split_tabs_spec(s@) =~= u + split_tabs_spec(s@.subrange(start as int, len as int)),
            out.deep_view() =~= u.map_values(|f: Seq<char>| trim_spec(f)),
        invariant
            len == s@.len(),
            0 <= start <= len,
        ensures
            out.deep_view() =~= row_fields(s@),
        decreases len - start,
    {
        let mut j: usize = start;
        while j < len && s.get_char(j) != '\t'
            invariant
                len == s@.len(),
                start <= j <= len,
                forall|k: int| start <= k < j ==> s@[k] != '\t',
            decreases len - j,
        {
            j = j + 1;
        }
        let piece = s.substring_char(start, j);
        let field = trim(piece);
        let ghost u0 = u;
        let ghost out0 = out.deep_view();
        out.push(field.to_owned());
        proof {
            let tr = |f: Seq<char>| trim_spec(f);
            let tail = s@.subrange(start as int, len as int);
            assert(forall|k: int|
                0 <= k < tail.len() ==> #[trigger] tail[k] == s@[k + start]);
            u = u0.push(s@.subrange(start as int, j as int));
            assert(out.deep_view() =~= out0.push(field@));
            assert(u.map_values(tr) =~= u0.map_values(tr).push(
                trim_spec(s@.subrange(start as int, j as int)),
            ));
            assert(out.deep_view() =~= u.map_values(tr));
            if j < len {
                lemma_split_head(tail, j - start);
                assert(tail.subrange(0, j - start) =~= s@.subrange(start as int, j as int));
                assert(tail.subrange(j - start + 1, tail.len() as int) =~= s@.subrange(
                    j + 1,
                    len as int,
                ));
                assert(split_tabs_spec(s@) =~= u + split_tabs_spec(
                    s@.subrange(j + 1, len as int),
                ));
            } else {
                lemma_split_no_tab(tail);
                assert(tail =~= s@.subrange(start as int, j as int));
                assert(split_tabs_spec(tail) =~= seq![tail]);
                assert(u0 + split_tabs_spec(tail) =~= u);
                assert(split_tabs_spec(s@) =~= u);
                assert(out.deep_view() =~= row_fields(s@));
            }
        }
        if j == len {
            break;
        }
        start = j + 1;
    }
    out
}

/// The fields of a row joined with single tabs.
pub open spec fn join_tabs(fields: Seq<Seq<char>>) -> Seq<char>
    decreases fields.len(),
{
    if fields.len() == 0 {
        Seq::empty()
    } else if fields.len() == 1 {
        fields[0]
    } else {
        join_tabs(fields.drop_last()) + seq!['\t'] + fields.last()
    }
}

/// Join fields with single tabs.
pub fn join_row(fields: &Vec<String>) -> (r: String)
    ensures
        r@ == join_tabs(fields.deep_view()),
{
    let mut out = String::new();
    let n = fields.len();
    let mut i: usize = 0;
    while i < n
        invariant
            n == fields.len(),
            0 <= i <= n,
            out@ == join_tabs(fields.deep_view().subrange(0, i as int)),
        decreases n - i,
    {
        if i > 0 {
            out.append("\t");
            proof {
                reveal_strlit("\t");
            }
        }
        out.append(fields[i].as_str());
        proof {
            let pref = fields.deep_view().subrange(0, i + 1);
            assert(pref.drop_last() =~= fields.deep_view().subrange(0, i as int));
            assert(pref.last() == fields.deep_view()[i as int]);
            if i > 0 {
                assert("\t"@ =~= seq!['\t']) by {
                    reveal_strlit("\t");
                }
            } else {
                assert(join_tabs(pref) == pref[0]);
            }
        }
        i = i + 1;
    }
    proof {
        assert(fields.deep_view().subrange(0, n as int) =~= fields.deep_view());
    }
    out
}

/// Append `width` zero-padded decimal digits of `v`.
pub fn push_num(out: &mut String, v: u64, width: usize)
    ensures
        final(out)@ == old(out)@ + num_str(v as int, width as nat),
    decreases width,
{
    if width == 0 {
        proof {
            assert(old(out)@ + num_str(v as int, 0) =~= old(out)@);
        }
        return ;
    }
    push_num(out, v / 10, width - 1);
    out.append(digit_str((v % 10) as u8));
    proof {
        assert(old(out)@ + num_str((v / 10) as int, (width - 1) as nat) + seq![
            digit_char_spec((v % 10) as int),
        ] =~= old(out)@ + num_str(v as int, width as nat));
    }
}

/// Append the decimal digits of `v` without padding.
pub fn push_nat(out: &mut String, v: u64)
    ensures
        final(out)@ == old(out)@ + nat_str(v as int),
    decreases v,
{
    if v <= 9 {
        out.append(digit_str(v as u8));
        proof {
            assert(old(out)@ + seq![digit_char_spec(v as int)] =~= old(out)@ + nat_str(v as int));
        }
    } else {
        push_nat(out, v / 10);
        out.append(digit_str((v % 10) as u8));
        proof {
            assert(old(out)@ + nat_str((v / 10) as int) + seq![digit_char_spec((v % 10) as int)]
                =~= old(out)@ + nat_str(v as int));
        }
    }
}

/// The one-character string for a digit value.
pub fn digit_str(d: u8) -> (r: &'static str)
    requires
        d <= 9,
    ensures
        r@ == seq![digit_char_spec(d as int)],
{
    proof {
        reveal_strlit("0");
        reveal_strlit("1");
        reveal_strlit("2");
        reveal_strlit("3");
        reveal_strlit("4");
        reveal_strlit("5");
        reveal_strlit("6");
        reveal_strlit("7");
        reveal_strlit("8");
        reveal_strlit("9");
    }
    let r = if d == 0 {
        "0"
    } else if d == 1 {
        "1"
    } else if d == 2 {
        "2"
    } else if d == 3 {
        "3"
    } else if d == 4 {
        "4"
    } else if d == 5 {
        "5"
    } else if d == 6 {
        "6"
    } else if d == 7 {
        "7"
    } else if d == 8 {
        "8"
    } else {
        "9"
    };
    proof {
        assert(r@ =~= seq![digit_char_spec(d as int)]);
    }
    r
}

/// Read the value of the digits of `s` between `from` and `to`.
pub fn read_num(s: &str, from: usize, to: usize) -> (r: u32)
    requires
        from <= to <= s@.len(),
        to - from <= 9,
        all_digits(s@.subrange(from as int, to as int)),
    ensures
        r == digits_val(s@.subrange(from as int, to as int)),
{
    proof {
        lemma_digits_val_bounds(s@.subrange(from as int, to as int));
        lemma_pow10_table();
    }
    let mut acc: u32 = 0;
    let mut i: usize = from;
    proof {
        assert(s@.subrange(from as int, from as int) =~= Seq::<char>::empty());
    }
    while i < to
        invariant
            from <= i <= to <= s@.len(),
            to - from <= 9,
            all_digits(s@.subrange(from as int, to as int)),
            acc == digits_val(s@.subrange(from as int, i as int)),
            acc < pow10((i - from) as nat),
        decreases to - i,
    {
        let c = s.get_char(i);
        proof {
            lemma_pow10_table();
            assert(s@.subrange(from as int, to as int)[i - from] == s@[i as int]);
            assert(is_digit_char(s@[i as int]));
            let pre = s@.subrange(from as int, i + 1);
            assert(pre.drop_last() =~= s@.subrange(from as int, i as int));
            assert(pre.last() == s@[i as int]);
            assert(all_digits(pre)) by {
                assert(forall|j: int|
                    0 <= j < pre.len() ==> pre[j] == s@.subrange(from as int, to as int)[j]);
            }
            lemma_digits_val_bounds(pre);
            lemma_pow10_mono((i - from) as nat, 8);
            assert(acc < pow10(8));
            assert(acc * 10 <= (pow10(8) - 1) * 10) by (nonlinear_arith)
                requires
                    acc < pow10(8),
                    acc >= 0,
            ;
        }
        acc = acc * 10 + (c as u32 - 48);
        i = i + 1;
    }
    proof {
        assert(s@.subrange(from as int, i as int) =~= s@.subrange(from as int, to as int));
    }
    acc
}

/// The first ten powers of ten.
pub proof fn lemma_pow10_table()
    ensures
        pow10(0) == 1,
        pow10(1) == 10,
        pow10(2) == 100,
        pow10(3) == 1000,
        pow10(4) == 10000,
        pow10(5) == 100000,
        pow10(6) == 1000000,
        pow10(7) == 10000000,
        pow10(8) == 100000000,
        pow10(9) == 1000000000,
{
    assert(pow10(0) == 1);
    assert(pow10(1) == 10);
    assert(pow10(2) == 100);
    assert(pow10(3) == 1000);
    assert(pow10(4) == 10000);
    assert(pow10(5) == 100000);
    assert(pow10(6) == 1000000);
    assert(pow10(7) == 10000000);
    assert(pow10(8) == 100000000);
    assert(pow10(9) == 1000000000);
}

pub proof fn lemma_pow10_mono(a: nat, b: nat)
    requires
        a <= b,
    ensures
        pow10(a) <= pow10(b),
    decreases b,
{
    if a < b {
        lemma_pow10_mono(a, (b - 1) as nat);
        lemma_pow10_pos((b - 1) as nat);
    }
}

/// Whether the digits of `s` between `from` and `to` are all decimal digits.
pub fn check_digits(s: &str, from: usize, to: usize) -> (r: bool)
    requires
        from <= to <= s@.len(),
    ensures
        r == all_digits(s@.subrange(from as int, to as int)),
{
    let mut i: usize = from;
    while i < to
        invariant
            from <= i <= to <= s@.len(),
            forall|j: int| from <= j < i ==> is_digit_char(#[trigger] s@[j]),
        decreases to - i,
    {
        if !is_digit(s.get_char(i)) {
            proof {
                assert(s@.subrange(from as int, to as int)[i - from] == s@[i as int]);
            }
            return false;
        }
        i = i + 1;
    }
    proof {
        assert forall|j: int| 0 <= j < to - from implies is_digit_char(
            #[trigger] s@.subrange(from as int, to as int)[j],
        ) by {
            assert(s@.subrange(from as int, to as int)[j] == s@[j + from]);
        }
    }
    true
}

} // verus!
