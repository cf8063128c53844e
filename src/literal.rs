use vstd::prelude::*;

verus! {

pub open spec fn is_digit(c: char) -> bool {
    '0' <= c && c <= '9'
}

pub open spec fn is_sign(c: char) -> bool {
    c == '+' || c == '-'
}

pub open spec fn is_exp_mark(c: char) -> bool {
    c == 'e' || c == 'E'
}

/// Digits with at most one `.` among them, and at least one digit.
pub open spec fn is_mantissa(m: Seq<char>) -> bool {
    &&& forall|i: int| 0 <= i < m.len() ==> is_digit(m[i]) || m[i] == '.'
    &&& forall|i: int, j: int| 0 <= i < m.len() && 0 <= j < m.len() && m[i] == '.' && m[j] == '.' ==> i == j
    &&& exists|i: int| 0 <= i < m.len() && is_digit(m[i])
}

/// One or more digits, after an optional sign.
pub open spec fn is_signed_digits(x: Seq<char>) -> bool {
    is_digits(unsigned_part(x))
}

/// One or more digits.
pub open spec fn is_digits(d: Seq<char>) -> bool {
    d.len() > 0 && forall|i: int| 0 <= i < d.len() ==> is_digit(d[i])
}

/// A mantissa, optionally followed by `e` or `E` and a signed exponent.
pub open spec fn is_decimal(u: Seq<char>) -> bool {
    ||| is_mantissa(u)
    ||| exists|k: int|
        0 <= k < u.len() && is_exp_mark(u[k]) && is_mantissa(u.take(k)) && is_signed_digits(
            u.skip(k + 1),
        )
}

/// `s` spells the word whose lower-case letters are `lw` and upper-case
/// letters are `uw`, in any mix of cases.
pub open spec fn is_word(s: Seq<char>, lw: Seq<char>, uw: Seq<char>) -> bool {
    s.len() == lw.len() && forall|i: int| 0 <= i < s.len() ==> s[i] == lw[i] || s[i] == uw[i]
}

pub open spec fn unsigned_part(s: Seq<char>) -> Seq<char> {
    if s.len() > 0 && is_sign(s[0]) {
        s.drop_first()
    } else {
        s
    }
}

/// The text of a floating-point number as Rust reads it: an optional sign,
/// then `inf`, `infinity` or `nan` in any case, or a decimal number with an
/// optional exponent.
pub open spec fn is_number_literal(s: Seq<char>) -> bool {
    let u = unsigned_part(s);
    ||| is_word(u, seq!['i', 'n', 'f'], seq!['I', 'N', 'F'])
    ||| is_word(
        u,
        seq!['i', 'n', 'f', 'i', 'n', 'i', 't', 'y'],
        seq!['I', 'N', 'F', 'I', 'N', 'I', 'T', 'Y'],
    )
    ||| is_word(u, seq!['n', 'a', 'n'], seq!['N', 'A', 'N'])
    ||| is_decimal(u)
}

fn digit(c: char) -> (r: bool)
    ensures
        r == is_digit(c),
{
    '0' <= c && c <= '9'
}

fn mantissa_at(v: &Vec<char>, lo: usize, hi: usize) -> (r: bool)
    requires
        lo <= hi <= v@.len(),
    ensures
        r == is_mantissa(v@.subrange(lo as int, hi as int)),
{
    let ghost m = v@.subrange(lo as int, hi as int);
    let mut dot: Option<usize> = None;
    let mut some_digit: Option<usize> = None;
    let mut i = lo;
    while i < hi
        invariant
            lo <= i <= hi <= v@.len(),
            m == v@.subrange(lo as int, hi as int),
            forall|k: int| lo <= k < i ==> is_digit(v@[k]) || v@[k] == '.',
            dot is None ==> forall|k: int| lo <= k < i ==> v@[k] != '.',
            dot matches Some(d) ==> lo <= d < i && v@[d as int] == '.' && forall|k: int|
                lo <= k < i && v@[k] == '.' ==> k == d,
            some_digit is None ==> forall|k: int| lo <= k < i ==> !is_digit(v@[k]),
            some_digit matches Some(d) ==> lo <= d < i && is_digit(v@[d as int]),
        decreases hi - i,
    {
        let c = v[i];
        if c == '.' {
            if let Some(d) = dot {
                assert(m[d - lo] == '.' && m[i - lo] == '.');
                return false;
            }
            dot = Some(i);
        } else if digit(c) {
            some_digit = Some(i);
        } else {
            assert(m[i - lo] == c);
            return false;
        }
        i = i + 1;
    }
    match some_digit {
        Some(d) => {
            assert(is_digit(m[d - lo]));
            true
        },
        None => false,
    }
}

fn signed_digits_at(v: &Vec<char>, lo: usize, hi: usize) -> (r: bool)
    requires
        lo <= hi <= v@.len(),
    ensures
        r == is_signed_digits(v@.subrange(lo as int, hi as int)),
{
    let ghost x = v@.subrange(lo as int, hi as int);
    let mut start = lo;
    if lo < hi && (v[lo] == '+' || v[lo] == '-') {
        start = lo + 1;
        assert(x.drop_first() =~= v@.subrange(start as int, hi as int));
    }
    let ghost d = v@.subrange(start as int, hi as int);
    assert(d == unsigned_part(x));
    if start == hi {
        return false;
    }
    let mut i = start;
    while i < hi
        invariant
            lo <= start <= i <= hi <= v@.len(),
            d == v@.subrange(start as int, hi as int),
            x == v@.subrange(lo as int, hi as int),
            d == unsigned_part(x),
            forall|k: int| start <= k < i ==> is_digit(v@[k]),
        decreases hi - i,
    {
        if !digit(v[i]) {
            assert(!is_digit(d[i - start]));
            return false;
        }
        i = i + 1;
    }
    assert forall|k: int| 0 <= k < d.len() implies is_digit(d[k]) by {
        assert(d[k] == v@[start + k]);
    }
    true
}

fn word_at(v: &Vec<char>, lo: usize, hi: usize, lw: &[char], uw: &[char]) -> (r: bool)
    requires
        lo <= hi <= v@.len(),
        lw@.len() == uw@.len(),
    ensures
        r == is_word(v@.subrange(lo as int, hi as int), lw@, uw@),
{
    if hi - lo != lw.len() {
        return false;
    }
    let mut i: usize = 0;
    while i < lw.len()
        invariant
            lo <= hi <= v@.len(),
            hi - lo == lw@.len() == uw@.len(),
            i <= lw@.len(),
            forall|k: int| 0 <= k < i ==> v@[lo + k] == lw@[k] || v@[lo + k] == uw@[k],
        decreases lw@.len() - i,
    {
        if v[lo + i] != lw[i] && v[lo + i] != uw[i] {
            return false;
        }
        i = i + 1;
    }
    true
}

/// Whether `token` is the text of a floating-point number.
pub fn number_literal(token: &str) -> (r: bool)
    ensures
        r == is_number_literal(token@),
{
    let v = crate::text::chars_of(token);
    let n = v.len();
    let mut lo: usize = 0;
    if n > 0 && (v[0] == '+' || v[0] == '-') {
        lo = 1;
    }
    let ghost u = unsigned_part(token@);
    assert(u =~= v@.subrange(lo as int, n as int));
    let inf_l = ['i', 'n', 'f'];
    let inf_u = ['I', 'N', 'F'];
    let infinity_l = ['i', 'n', 'f', 'i', 'n', 'i', 't', 'y'];
    let infinity_u = ['I', 'N', 'F', 'I', 'N', 'I', 'T', 'Y'];
    let nan_l = ['n', 'a', 'n'];
    let nan_u = ['N', 'A', 'N'];
    assert(inf_l@ =~= seq!['i', 'n', 'f']);
    assert(inf_u@ =~= seq!['I', 'N', 'F']);
    assert(infinity_l@ =~= seq!['i', 'n', 'f', 'i', 'n', 'i', 't', 'y']);
    assert(infinity_u@ =~= seq!['I', 'N', 'F', 'I', 'N', 'I', 'T', 'Y']);
    assert(nan_l@ =~= seq!['n', 'a', 'n']);
    assert(nan_u@ =~= seq!['N', 'A', 'N']);
    if word_at(&v, lo, n, inf_l.as_slice(), inf_u.as_slice()) || word_at(
        &v,
        lo,
        n,
        infinity_l.as_slice(),
        infinity_u.as_slice(),
    ) || word_at(&v, lo, n, nan_l.as_slice(), nan_u.as_slice()) {
        return true;
    }
    decimal_at(&v, lo, n)
}

fn decimal_at(v: &Vec<char>, lo: usize, hi: usize) -> (r: bool)
    requires
        lo <= hi <= v@.len(),
    ensures
        r == is_decimal(v@.subrange(lo as int, hi as int)),
{
    let ghost u = v@.subrange(lo as int, hi as int);
    let mut k = lo;
    while k < hi && v[k] != 'e' && v[k] != 'E'
        invariant
            lo <= k <= hi <= v@.len(),
            forall|j: int| lo <= j < k ==> !is_exp_mark(v@[j]),
        decreases hi - k,
    {
        k = k + 1;
    }
    if k == hi {
        let r = mantissa_at(v, lo, hi);
        assert forall|j: int| 0 <= j < u.len() implies !is_exp_mark(u[j]) by {
            assert(u[j] == v@[lo + j]);
        }
        return r;
    }
    assert(u.take(k - lo) =~= v@.subrange(lo as int, k as int));
    assert(u.skip(k - lo + 1) =~= v@.subrange(k + 1, hi as int));
    assert(u[k - lo] == v@[k as int]);
    let r = mantissa_at(v, lo, k) && signed_digits_at(v, k + 1, hi);
    if !r {
        assert(!is_mantissa(u));
        assert forall|j: int|
            0 <= j < u.len() && is_exp_mark(u[j]) && is_mantissa(u.take(j)) implies j == k
            - lo by {
            if j > k - lo {
                assert(u.take(j)[k - lo] == u[k - lo]);
            } else if j < k - lo {
                assert(u[j] == v@[lo + j]);
            }
        }
    }
    r
}

} // verus!
