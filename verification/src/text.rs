//! Character-level building blocks of the index format: decimal digits,
//! newline and delimiter search, and splitting on the two-character `//`
//! delimiter.

use vstd::prelude::*;

verus! {

/// Numeric value of a decimal digit character, `-1` for anything else.
pub open spec fn digit_val(c: char) -> int {
    if c == '0' {
        0
    } else if c == '1' {
        1
    } else if c == '2' {
        2
    } else if c == '3' {
        3
    } else if c == '4' {
        4
    } else if c == '5' {
        5
    } else if c == '6' {
        6
    } else if c == '7' {
        7
    } else if c == '8' {
        8
    } else if c == '9' {
        9
    } else {
        -1
    }
}

pub open spec fn is_digit(c: char) -> bool {
    digit_val(c) >= 0
}

/// The decimal digit character for a value in `0..=9`.
pub open spec fn digit_char(d: int) -> char {
    if d == 0 {
        '0'
    } else if d == 1 {
        '1'
    } else if d == 2 {
        '2'
    } else if d == 3 {
        '3'
    } else if d == 4 {
        '4'
    } else if d == 5 {
        '5'
    } else if d == 6 {
        '6'
    } else if d == 7 {
        '7'
    } else if d == 8 {
        '8'
    } else {
        '9'
    }
}

pub open spec fn all_digits(s: Seq<char>) -> bool {
    forall|i: int| 0 <= i < s.len() ==> is_digit(s[i])
}

/// Value of a digit sequence read as a decimal numeral (most significant
/// digit first).
pub open spec fn dec_value(s: Seq<char>) -> int
    decreases s.len(),
{
    if s.len() == 0 {
        0
    } else {
        dec_value(s.drop_last()) * 10 + digit_val(s.last())
    }
}

/// Canonical decimal numeral of a non-negative integer: no sign, no leading
/// zero except for the numeral of zero itself.
pub open spec fn dec_str(n: int) -> Seq<char>
    decreases n,
{
    if n < 10 {
        seq![digit_char(n)]
    } else {
        dec_str(n / 10) + seq![digit_char(n % 10)]
    }
}

/// The two-character field delimiter of an index line.
pub open spec fn delim() -> Seq<char> {
    seq!['/', '/']
}

/// A delimiter occurrence starts at position `i` of `s`.
pub open spec fn delim_at(s: Seq<char>, i: int) -> bool {
    0 <= i && i + 2 <= s.len() && s[i] == '/' && s[i + 1] == '/'
}

pub open spec fn no_delim(s: Seq<char>) -> bool {
    forall|i: int| !delim_at(s, i)
}

pub open spec fn no_newline(s: Seq<char>) -> bool {
    forall|i: int| 0 <= i < s.len() ==> s[i] != '\n'
}

/// Index of the first newline in `s`, or `-1` if there is none.
pub open spec fn find_nl(s: Seq<char>) -> int
    decreases s.len(),
{
    if s.len() == 0 {
        -1
    } else if s[0] == '\n' {
        0
    } else if find_nl(s.skip(1)) < 0 {
        -1
    } else {
        find_nl(s.skip(1)) + 1
    }
}

/// Index of the first delimiter occurrence in `s`, or `-1` if there is none.
pub open spec fn find_delim(s: Seq<char>) -> int
    decreases s.len(),
{
    if s.len() < 2 {
        -1
    } else if s[0] == '/' && s[1] == '/' {
        0
    } else if find_delim(s.skip(1)) < 0 {
        -1
    } else {
        find_delim(s.skip(1)) + 1
    }
}

/// Splitting on the delimiter, leftmost occurrence first, as the index
/// format prescribes; a string without a delimiter is one single field.
pub open spec fn split_delim(s: Seq<char>) -> Seq<Seq<char>>
    decreases s.len(),
    via split_delim_decreases
{
    if find_delim(s) < 0 {
        seq![s]
    } else {
        seq![s.take(find_delim(s))] + split_delim(s.skip(find_delim(s) + 2))
    }
}

#[via_fn]
proof fn split_delim_decreases(s: Seq<char>) {
    lemma_find_delim(s);
}

pub proof fn lemma_find_nl(s: Seq<char>)
    ensures
        find_nl(s) >= 0 ==> find_nl(s) < s.len() && s[find_nl(s)] == '\n' && (forall|j: int|
            0 <= j < find_nl(s) ==> s[j] != '\n'),
        find_nl(s) < 0 ==> no_newline(s),
    decreases s.len(),
{
    if s.len() == 0 {
    } else if s[0] == '\n' {
    } else {
        let t = s.skip(1);
        lemma_find_nl(t);
        assert(forall|j: int| 0 <= j < t.len() ==> t[j] == s[j + 1]);
        if find_nl(t) < 0 {
            assert forall|j: int| 0 <= j < s.len() implies s[j] != '\n' by {
                if j >= 1 {
                    assert(t[j - 1] == s[j]);
                }
            }
        } else {
            assert(s[find_nl(s)] == t[find_nl(t)]);
            assert forall|j: int| 0 <= j < find_nl(s) implies s[j] != '\n' by {
                if j >= 1 {
                    assert(t[j - 1] == s[j]);
                    assert(t[j - 1] != '\n');
                }
            }
        }
    }
}

/// If `k` is a newline position with none before it, it is the one that
/// `find_nl` names.
pub proof fn lemma_find_nl_is(s: Seq<char>, k: int)
    requires
        0 <= k < s.len(),
        s[k] == '\n',
        forall|j: int| 0 <= j < k ==> s[j] != '\n',
    ensures
        find_nl(s) == k,
{
    lemma_find_nl(s);
    if find_nl(s) < 0 {
        assert(s[k] != '\n');
    } else if find_nl(s) < k {
        assert(s[find_nl(s)] != '\n');
    } else if find_nl(s) > k {
        assert(s[k] != '\n');
    }
}

pub proof fn lemma_find_delim(s: Seq<char>)
    ensures
        find_delim(s) >= 0 ==> delim_at(s, find_delim(s)) && (forall|j: int|
            0 <= j < find_delim(s) ==> !delim_at(s, j)),
        find_delim(s) < 0 ==> no_delim(s),
    decreases s.len(),
{
    if s.len() < 2 {
        assert forall|i: int| !delim_at(s, i) by {}
    } else if s[0] == '/' && s[1] == '/' {
    } else {
        let t = s.skip(1);
        lemma_find_delim(t);
        assert(forall|j: int| 0 <= j < t.len() ==> t[j] == s[j + 1]);
        if find_delim(t) < 0 {
            assert forall|i: int| !delim_at(s, i) by {
                if i >= 1 && i + 2 <= s.len() {
                    assert(t[i - 1] == s[i] && t[i] == s[i + 1]);
                    assert(!delim_at(t, i - 1));
                }
            }
        } else {
            let k = find_delim(t);
            assert(t[k] == s[k + 1] && t[k + 1] == s[k + 2]);
            assert(delim_at(s, k + 1));
            assert forall|j: int| 0 <= j < find_delim(s) implies !delim_at(s, j) by {
                if j >= 1 && delim_at(s, j) {
                    assert(t[j - 1] == s[j] && t[j] == s[j + 1]);
                    assert(delim_at(t, j - 1));
                    assert(!delim_at(t, j - 1));
                }
            }
        }
    }
}

/// If `k` is a delimiter position with none before it, it is the one that
/// `find_delim` names.
pub proof fn lemma_find_delim_is(s: Seq<char>, k: int)
    requires
        delim_at(s, k),
        forall|j: int| 0 <= j < k ==> !delim_at(s, j),
    ensures
        find_delim(s) == k,
{
    lemma_find_delim(s);
    if find_delim(s) < 0 {
        assert(!delim_at(s, k));
    }
}

pub proof fn lemma_split_delim_whole(s: Seq<char>)
    requires
        no_delim(s),
    ensures
        split_delim(s) == seq![s],
{
    lemma_find_delim(s);
    if find_delim(s) >= 0 {
        assert(!delim_at(s, find_delim(s)));
    }
}

/// Peeling one delimiter-free field (which does not end in `/`) off the
/// front of a delimited string.
pub proof fn lemma_split_delim_prepend(p: Seq<char>, rest: Seq<char>)
    requires
        no_delim(p),
        p.len() == 0 || p.last() != '/',
    ensures
        split_delim(p + delim() + rest) == seq![p] + split_delim(rest),
{
    let s = p + delim() + rest;
    assert(delim_at(s, p.len() as int));
    assert forall|j: int| 0 <= j < p.len() implies !delim_at(s, j) by {
        if j + 2 <= p.len() {
            assert(s[j] == p[j] && s[j + 1] == p[j + 1]);
            assert(!delim_at(p, j));
        } else {
            assert(j == p.len() - 1);
            assert(s[j] == p[j]);
            assert(p[j] == p.last());
        }
    }
    lemma_find_delim_is(s, p.len() as int);
    assert(s.take(p.len() as int) =~= p);
    assert(s.skip(p.len() as int + 2) =~= rest);
}

pub proof fn lemma_dec_str_digits(n: int)
    requires
        n >= 0,
    ensures
        dec_str(n).len() >= 1,
        all_digits(dec_str(n)),
    decreases n,
{
    if n < 10 {
    } else {
        lemma_dec_str_digits(n / 10);
        assert forall|i: int| 0 <= i < dec_str(n).len() implies is_digit(dec_str(n)[i]) by {
            if i < dec_str(n / 10).len() {
                assert(dec_str(n)[i] == dec_str(n / 10)[i]);
            }
        }
    }
}

/// Digit sequences hold neither a delimiter nor a newline.
pub proof fn lemma_digits_clean(s: Seq<char>)
    requires
        all_digits(s),
    ensures
        no_delim(s),
        no_newline(s),
        s.len() == 0 || s.last() != '/',
{
    assert forall|i: int| !delim_at(s, i) by {
        if 0 <= i && i + 2 <= s.len() {
            assert(is_digit(s[i]));
        }
    }
    assert forall|i: int| 0 <= i < s.len() implies s[i] != '\n' by {
        assert(is_digit(s[i]));
    }
    if s.len() > 0 {
        assert(is_digit(s.last()));
    }
}

pub proof fn lemma_no_newline_concat(a: Seq<char>, b: Seq<char>)
    requires
        no_newline(a),
        no_newline(b),
    ensures
        no_newline(a + b),
{
    assert forall|i: int| 0 <= i < (a + b).len() implies (a + b)[i] != '\n' by {
        if i < a.len() {
            assert((a + b)[i] == a[i]);
        } else {
            assert((a + b)[i] == b[i - a.len()]);
        }
    }
}

/// Reading back the canonical numeral gives the number.
pub proof fn lemma_dec_value_of_dec_str(n: int)
    requires
        n >= 0,
    ensures
        dec_value(dec_str(n)) == n,
    decreases n,
{
    if n < 10 {
        let s = seq![digit_char(n)];
        assert(s.drop_last() =~= Seq::<char>::empty());
        assert(dec_value(s.drop_last()) == 0);
    } else {
        lemma_dec_value_of_dec_str(n / 10);
        let s = dec_str(n);
        assert(s =~= dec_str(n / 10) + seq![digit_char(n % 10)]);
        assert(s.drop_last() =~= dec_str(n / 10));
        assert(s.last() == digit_char(n % 10));
        assert(digit_val(digit_char(n % 10)) == n % 10);
        vstd::arithmetic::div_mod::lemma_fundamental_div_mod(n, 10);
    }
}

pub proof fn lemma_dec_value_nonneg(s: Seq<char>)
    requires
        all_digits(s),
    ensures
        dec_value(s) >= 0,
    decreases s.len(),
{
    if s.len() > 0 {
        lemma_dec_value_nonneg(s.drop_last());
        assert(is_digit(s.last()));
    }
}

/// The value of a digit sequence only grows as digits are appended.
pub proof fn lemma_dec_value_prefix(s: Seq<char>, i: int)
    requires
        all_digits(s),
        0 <= i <= s.len(),
    ensures
        dec_value(s.take(i)) <= dec_value(s),
    decreases s.len() - i,
{
    if i == s.len() {
        assert(s.take(i) =~= s);
    } else {
        lemma_dec_value_prefix(s, i + 1);
        let t = s.take(i + 1);
        assert(t.drop_last() =~= s.take(i));
        assert(t.last() == s[i]);
        lemma_dec_value_nonneg(s.take(i));
        assert(is_digit(s[i]));
        assert(dec_value(s.take(i)) * 10 >= dec_value(s.take(i)));
    }
}

/// The decimal digit characters as one-character string slices.
fn digit_str(d: u64) -> (r: &'static str)
    requires
        d < 10,
    ensures
        r@ == seq![digit_char(d as int)],
{
    proof {
        reveal_strlit("0");
        reveal_strlit("1");
        reveal_strlit("2");
        reveal_strlit("3");
        reveal_strlit("4");
        reveal_strlit("5");
        reveal_strlit("6");
        reveal_strlit("7");
        reveal_strlit("8");
        reveal_strlit("9");
    }
    if d == 0 {
        "0"
    } else if d == 1 {
        "1"
    } else if d == 2 {
        "2"
    } else if d == 3 {
        "3"
    } else if d == 4 {
        "4"
    } else if d == 5 {
        "5"
    } else if d == 6 {
        "6"
    } else if d == 7 {
        "7"
    } else if d == 8 {
        "8"
    } else {
        "9"
    }
}

/// Renders a number as its canonical decimal numeral.
pub fn u64_to_dec(n: u64) -> (r: String)
    ensures
        r@ == dec_str(n as int),
    decreases n,
{
    if n < 10 {
        String::from_str(digit_str(n))
    } else {
        let high = u64_to_dec(n / 10);
        high.concat(digit_str(n % 10))
    }
}

/// Parses a string of decimal digits as a `u64`; `None` when the string is
/// empty, holds a non-digit, or names a value above `u64::MAX`.
pub fn parse_u64_digits(s: &str) -> (r: Option<u64>)
    ensures
        match r {
            Some(v) => s@.len() > 0 && all_digits(s@) && dec_value(s@) == v as int,
            None => !(s@.len() > 0 && all_digits(s@) && dec_value(s@) <= u64::MAX),
        },
{
    let n = s.unicode_len();
    if n == 0 {
        return None;
    }
    let mut i: usize = 0;
    while i < n
        invariant
            0 <= i <= n,
            n == s@.len(),
            forall|j: int| 0 <= j < i ==> is_digit(s@[j]),
        decreases n - i,
    {
        let c = s.get_char(i);
        let digit = c == '0' || c == '1' || c == '2' || c == '3' || c == '4' || c == '5' || c
            == '6' || c == '7' || c == '8' || c == '9';
        if !digit {
            assert(!is_digit(s@[i as int]));
            return None;
        }
        i = i + 1;
    }
    assert(all_digits(s@));
    let mut acc: u64 = 0;
    let mut k: usize = 0;
    while k < n
        invariant
            0 <= k <= n,
            n == s@.len(),
            all_digits(s@),
            acc as int == dec_value(s@.take(k as int)),
        decreases n - k,
    {
        let c = s.get_char(k);
        let d: u64 = if c == '0' {
            0
        } else if c == '1' {
            1
        } else if c == '2' {
            2
        } else if c == '3' {
            3
        } else if c == '4' {
            4
        } else if c == '5' {
            5
        } else if c == '6' {
            6
        } else if c == '7' {
            7
        } else if c == '8' {
            8
        } else {
            9
        };
        assert(d as int == digit_val(s@[k as int]));
        if acc > (u64::MAX - d) / 10 {
            proof {
                let t = s@.take(k as int + 1);
                assert(t.drop_last() =~= s@.take(k as int));
                assert(t.last() == s@[k as int]);
                let q = (u64::MAX - d) as int / 10;
                vstd::arithmetic::div_mod::lemma_fundamental_div_mod((u64::MAX - d) as int, 10);
                assert(acc as int >= q + 1);
                assert(acc as int * 10 >= (q + 1) * 10);
                assert(dec_value(t) > u64::MAX);
                lemma_dec_value_prefix(s@, k as int + 1);
            }
            return None;
        }
        proof {
            let t = s@.take(k as int + 1);
            assert(t.drop_last() =~= s@.take(k as int));
            assert(t.last() == s@[k as int]);
            let q = (u64::MAX - d) as int / 10;
            vstd::arithmetic::div_mod::lemma_fundamental_div_mod((u64::MAX - d) as int, 10);
            assert(acc as int * 10 <= q * 10);
            assert(acc as int * 10 + d <= u64::MAX);
        }
        acc = acc * 10 + d;
        k = k + 1;
    }
    proof {
        assert(s@.take(n as int) =~= s@);
    }
    Some(acc)
}

/// Character-for-character string equality.
pub fn str_eq(a: &str, b: &str) -> (r: bool)
    ensures
        r == (a@ == b@),
{
    let na = a.unicode_len();
    let nb = b.unicode_len();
    if na != nb {
        proof {
            if a@ == b@ {
                assert(a@.len() == b@.len());
            }
        }
        return false;
    }
    let mut i: usize = 0;
    while i < na
        invariant
            0 <= i <= na,
            na == a@.len(),
            na == b@.len(),
            forall|j: int| 0 <= j < i ==> a@[j] == b@[j],
        decreases na - i,
    {
        if a.get_char(i) != b.get_char(i) {
            proof {
                if a@ == b@ {
                    assert(a@[i as int] == b@[i as int]);
                }
            }
            return false;
        }
        i = i + 1;
    }
    proof {
        assert(a@ =~= b@);
    }
    true
}

/// First newline at or after `start`, or the length of `s` if there is none.
pub fn find_nl_from(s: &str, start: usize) -> (r: usize)
    requires
        start <= s@.len(),
    ensures
        start <= r <= s@.len(),
        r < s@.len() ==> s@[r as int] == '\n',
        forall|j: int| start <= j < r ==> s@[j] != '\n',
{
    let n = s.unicode_len();
    let mut i: usize = start;
    while i < n
        invariant
            start <= i <= n,
            n == s@.len(),
            forall|j: int| start <= j < i ==> s@[j] != '\n',
        decreases n - i,
    {
        if s.get_char(i) == '\n' {
            return i;
        }
        i = i + 1;
    }
    n
}

/// First delimiter occurrence starting at or after `start`, or the length
/// of `s` if there is none.
pub fn find_delim_from(s: &str, start: usize) -> (r: usize)
    requires
        start <= s@.len(),
    ensures
        start <= r <= s@.len(),
        r < s@.len() ==> delim_at(s@, r as int),
        forall|j: int| start <= j < r ==> !delim_at(s@, j),
        r == s@.len() ==> forall|j: int| start <= j ==> !delim_at(s@, j),
{
    let n = s.unicode_len();
    let mut k: usize = start;
    while n >= 1 && k < n - 1
        invariant
            start <= k,
            k <= n,
            n == s@.len(),
            forall|j: int| start <= j < k ==> !delim_at(s@, j),
        decreases n - k,
    {
        if s.get_char(k) == '/' && s.get_char(k + 1) == '/' {
            return k;
        }
        assert(!delim_at(s@, k as int));
        k = k + 1;
    }
    assert forall|j: int| start <= j implies !delim_at(s@, j) by {
        if j + 2 <= s@.len() {
            assert(j < k);
        }
    }
    n
}

/// Splits a line on the `//` delimiter, leftmost occurrence first, exactly
/// as [`split_delim`] describes.
pub fn split_on_delim<'a>(line: &'a str) -> (fields: Vec<&'a str>)
    ensures
        fields@.len() == split_delim(line@).len(),
        forall|i: int| 0 <= i < fields@.len() ==> fields@[i]@ == split_delim(line@)[i],
{
    let n = line.unicode_len();
    let mut fields: Vec<&'a str> = Vec::new();
    let mut pos: usize = 0;
    proof {
        assert(line@.skip(0) =~= line@);
        assert(fields@.map_values(|f: &str| f@) =~= Seq::<Seq<char>>::empty());
        assert(Seq::<Seq<char>>::empty() + split_delim(line@) =~= split_delim(line@));
    }
    loop
        invariant
            0 <= pos <= n,
            n == line@.len(),
            split_delim(line@) == fields@.map_values(|f: &str| f@) + split_delim(
                line@.skip(pos as int),
            ),
        decreases n - pos,
    {
        let k = find_delim_from(line, pos);
        let ghost rem = line@.skip(pos as int);
        assert(forall|j: int| 0 <= j < rem.len() ==> rem[j] == line@[j + pos]);
        if k < n {
            let field = line.substring_char(pos, k);
            proof {
                assert(delim_at(rem, k as int - pos as int));
                assert forall|j: int| 0 <= j < k as int - pos as int implies !delim_at(rem, j) by {
                    if delim_at(rem, j) {
                        assert(rem[j] == line@[j + pos] && rem[j + 1] == line@[j + pos + 1]);
                        assert(delim_at(line@, j + pos));
                    }
                }
                lemma_find_delim_is(rem, k as int - pos as int);
                assert(rem.take(k as int - pos as int) =~= line@.subrange(pos as int, k as int));
                assert(rem.skip(k as int - pos as int + 2) =~= line@.skip(k as int + 2));
                let fs = fields@.map_values(|f: &str| f@);
                assert(fields@.push(field).map_values(|f: &str| f@) =~= fs + seq![field@]);
                assert((fs + seq![field@]) + split_delim(line@.skip(k as int + 2)) =~= fs + (seq![
                    field@,
                ] + split_delim(line@.skip(k as int + 2))));
            }
            fields.push(field);
            pos = k + 2;
        } else {
            let field = line.substring_char(pos, n);
            proof {
                assert forall|j: int| !delim_at(rem, j) by {
                    if 0 <= j && j + 2 <= rem.len() {
                        assert(rem[j] == line@[j + pos] && rem[j + 1] == line@[j + pos + 1]);
                        assert(!delim_at(line@, j + pos));
                    }
                }
                lemma_split_delim_whole(rem);
                assert(rem =~= line@.subrange(pos as int, n as int));
                let fs = fields@.map_values(|f: &str| f@);
                assert(fields@.push(field).map_values(|f: &str| f@) =~= fs + seq![field@]);
            }
            fields.push(field);
            return fields;
        }
    }
}

} // verus!
