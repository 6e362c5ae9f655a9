//! Small verified string helpers: content equality and decimal rendering.

use vstd::prelude::*;

verus! {

/// Content equality of two string slices: true exactly when the two
/// character sequences are equal.
pub fn str_eq(a: &str, b: &str) -> (r: bool)
    ensures
        r == (a@ == b@),
{
    let alen = a.unicode_len();
    let blen = b.unicode_len();
    if alen != blen {
        return false;
    }
    let mut i: usize = 0;
    while i < alen
        invariant
            i <= alen,
            alen == a@.len(),
            alen == b@.len(),
            forall|j: int| 0 <= j < i ==> a@[j] == b@[j],
        decreases alen - i,
    {
        if a.get_char(i) != b.get_char(i) {
            return false;
        }
        i = i + 1;
    }
    proof {
        assert(a@ =~= b@);
    }
    true
}

/// Content equality of two owned strings.
pub fn string_eq(a: &String, b: &String) -> (r: bool)
    ensures
        r == (a@ == b@),
{
    str_eq(a.as_str(), b.as_str())
}

/// The index of the first occurrence of `c` in `s`, or `s.len()` when `c`
/// does not occur.
pub open spec fn find_char_spec(s: Seq<char>, c: char) -> int
    decreases s.len(),
{
    if s.len() == 0 {
        0
    } else if s[0] == c {
        0
    } else {
        1 + find_char_spec(s.skip(1), c)
    }
}

/// `find_char_spec` is in range, lands on `c`, and nothing before it is `c`.
pub proof fn lemma_find_char(s: Seq<char>, c: char)
    ensures
        0 <= find_char_spec(s, c) <= s.len(),
        find_char_spec(s, c) < s.len() ==> s[find_char_spec(s, c)] == c,
        forall|j: int| 0 <= j < find_char_spec(s, c) ==> s[j] != c,
    decreases s.len(),
{
    if s.len() > 0 && s[0] != c {
        lemma_find_char(s.skip(1), c);
        assert forall|j: int| 0 <= j < find_char_spec(s, c) implies s[j] != c by {
            if j > 0 {
                assert(s.skip(1)[j - 1] != c);
            }
        }
    }
}

/// Any index with the first-occurrence characterization is `find_char_spec`.
pub proof fn lemma_find_char_is(s: Seq<char>, c: char, k: int)
    requires
        0 <= k <= s.len(),
        k < s.len() ==> s[k] == c,
        forall|j: int| 0 <= j < k ==> s[j] != c,
    ensures
        find_char_spec(s, c) == k,
    decreases s.len(),
{
    if s.len() > 0 && s[0] != c {
        assert(s.skip(1) =~= s.subrange(1, s.len() as int));
        lemma_find_char_is(s.skip(1), c, k - 1);
    }
}

/// Finds the first occurrence of `c` in `s` at or after position `from`;
/// returns the length of `s` when there is none.
pub fn find_char_from(s: &str, from: usize, c: char) -> (r: usize)
    requires
        from <= s@.len(),
    ensures
        from <= r <= s@.len(),
        r - from == find_char_spec(s@.skip(from as int), c),
        r < s@.len() ==> s@[r as int] == c,
        forall|j: int| from <= j < r ==> s@[j] != c,
{
    let len = s.unicode_len();
    let mut i: usize = from;
    while i < len
        invariant
            from <= i <= len,
            len == s@.len(),
            from <= s@.len(),
            forall|j: int| from <= j < i ==> s@[j] != c,
        decreases len - i,
    {
        if s.get_char(i) == c {
            proof {
                lemma_find_char_is(s@.skip(from as int), c, i - from);
            }
            return i;
        }
        i = i + 1;
    }
    proof {
        lemma_find_char_is(s@.skip(from as int), c, len - from);
    }
    len
}

/// The character for one decimal digit.
pub open spec fn digit_char(d: int) -> char {
    if d == 0 {
        '0'
    } else if d == 1 {
        '1'
    } else if d == 2 {
        '2'
    } else if d == 3 {
        '3'
    } else if d == 4 {
        '4'
    } else if d == 5 {
        '5'
    } else if d == 6 {
        '6'
    } else if d == 7 {
        '7'
    } else if d == 8 {
        '8'
    } else {
        '9'
    }
}

/// The decimal rendering of a natural number, most significant digit first.
pub open spec fn dec_digits(n: int) -> Seq<char>
    decreases n,
{
    if n < 10 {
        seq![digit_char(n)]
    } else {
        dec_digits(n / 10).push(digit_char(n % 10))
    }
}

/// Whether `c` is a decimal digit.
pub open spec fn is_digit(c: char) -> bool {
    48 <= c as u32 <= 57
}

/// The numeric value of a decimal digit character.
pub open spec fn digit_val(c: char) -> int {
    c as u32 - 48
}

/// Whether every character of `s` is a decimal digit.
pub open spec fn all_digits(s: Seq<char>) -> bool {
    forall|i: int| 0 <= i < s.len() ==> is_digit(s[i])
}

/// The value of a sequence of decimal digits, most significant first.
/// The empty sequence has value zero.
pub open spec fn digits_val(s: Seq<char>) -> int
    decreases s.len(),
{
    if s.len() == 0 {
        0
    } else {
        digits_val(s.drop_last()) * 10 + digit_val(s.last())
    }
}

/// Ten to the power `k` (and `1` for non-positive `k`).
pub open spec fn pow10(k: int) -> int
    decreases k,
{
    if k <= 0 {
        1
    } else {
        10 * pow10(k - 1)
    }
}

/// `pow10` is at least one.
pub proof fn lemma_pow10_pos(k: int)
    ensures
        pow10(k) >= 1,
    decreases (if k <= 0 { 0int } else { k }),
{
    if k > 0 {
        lemma_pow10_pos(k - 1);
    }
}

/// `pow10` is monotone.
pub proof fn lemma_pow10_le(a: int, b: int)
    requires
        a <= b,
    ensures
        pow10(a) <= pow10(b),
    decreases b - a,
{
    if a < b {
        lemma_pow10_le(a, b - 1);
        lemma_pow10_pos(b - 1);
    }
}

/// Computes `pow10` for exponents up to eighteen.
pub fn pow10_x(k: u64) -> (r: u64)
    requires
        k <= 18,
    ensures
        r == pow10(k as int),
{
    let mut j: u64 = 0;
    let mut acc: u64 = 1;
    while j < k
        invariant
            j <= k <= 18,
            acc == pow10(j as int),
        decreases k - j,
    {
        proof {
            lemma_pow10_le(j + 1, 18);
            assert(pow10(18) == 1_000_000_000_000_000_000) by {
                reveal_with_fuel(pow10, 20);
            }
        }
        acc = acc * 10;
        j = j + 1;
    }
    acc
}

/// The value of concatenated digit sequences: the left part shifted by the
/// right part's width, plus the right part.
pub proof fn lemma_digits_val_concat(a: Seq<char>, b: Seq<char>)
    ensures
        digits_val(a + b) == digits_val(a) * pow10(b.len() as int) + digits_val(b),
    decreases b.len(),
{
    if b.len() == 0 {
        assert(a + b =~= a);
    } else {
        assert((a + b).drop_last() =~= a + b.drop_last());
        assert((a + b).last() == b.last());
        lemma_digits_val_concat(a, b.drop_last());
        assert(digits_val(a) * pow10((b.len() - 1) as int) * 10 == digits_val(a) * pow10(
            b.len() as int,
        )) by (nonlinear_arith)
            requires
                pow10(b.len() as int) == 10 * pow10((b.len() - 1) as int),
        ;
    }
}

/// A non-negative value divided by a positive divisor stays between zero
/// and the value.
pub proof fn lemma_div_nonneg_le(n: int, d: int)
    requires
        n >= 0,
        d >= 1,
    ensures
        0 <= n / d <= n,
{
    vstd::arithmetic::div_mod::lemma_div_pos_is_pos(n, d);
    vstd::arithmetic::div_mod::lemma_div_nonincreasing(n, d);
}

/// A sequence of `n` digits has a value below `pow10(n)`.
pub proof fn lemma_digits_val_bound(s: Seq<char>)
    requires
        all_digits(s),
    ensures
        0 <= digits_val(s) < pow10(s.len() as int),
    decreases s.len(),
{
    if s.len() > 0 {
        assert(all_digits(s.drop_last()));
        lemma_digits_val_bound(s.drop_last());
        assert(is_digit(s.last()));
    }
}

/// Reads the decimal digits of `s` between `from` and `to`: their value when
/// they are all digits, and `None` otherwise. An empty range reads zero.
pub fn read_digits(s: &str, from: usize, to: usize) -> (r: Option<u64>)
    requires
        from <= to <= s@.len(),
        to - from <= 18,
    ensures
        r is Some <==> all_digits(s@.subrange(from as int, to as int)),
        r matches Some(v) ==> v == digits_val(s@.subrange(from as int, to as int)),
{
    let mut i: usize = from;
    let mut acc: u64 = 0;
    while i < to
        invariant
            from <= i <= to <= s@.len(),
            to - from <= 18,
            all_digits(s@.subrange(from as int, i as int)),
            acc == digits_val(s@.subrange(from as int, i as int)),
            acc < pow10(i - from),
        decreases to - i,
    {
        let c = s.get_char(i);
        let cv = c as u32;
        if cv < 48 || cv > 57 {
            proof {
                assert(!is_digit(s@.subrange(from as int, to as int)[i - from]));
            }
            return None;
        }
        proof {
            let pre = s@.subrange(from as int, (i + 1) as int);
            assert(pre.drop_last() =~= s@.subrange(from as int, i as int));
            assert(pre.last() == c);
            lemma_digits_val_bound(s@.subrange(from as int, (i + 1) as int));
            lemma_pow10_le(i + 1 - from, 18);
            assert(pow10(18) == 1_000_000_000_000_000_000) by {
                reveal_with_fuel(pow10, 20);
            }
            assert(pow10(i + 1 - from) == 10 * pow10(i - from));
        }
        acc = acc * 10 + (cv - 48) as u64;
        i = i + 1;
    }
    Some(acc)
}

/// Appends the character of one decimal digit to `s`.
pub fn append_digit(s: &mut String, d: u64)
    requires
        d <= 9,
    ensures
        final(s)@ == old(s)@ + seq![digit_char(d as int)],
{
    match d {
        0 => s.append("0"),
        1 => s.append("1"),
        2 => s.append("2"),
        3 => s.append("3"),
        4 => s.append("4"),
        5 => s.append("5"),
        6 => s.append("6"),
        7 => s.append("7"),
        8 => s.append("8"),
        _ => s.append("9"),
    }
    proof {
        reveal_strlit("0");
        reveal_strlit("1");
        reveal_strlit("2");
        reveal_strlit("3");
        reveal_strlit("4");
        reveal_strlit("5");
        reveal_strlit("6");
        reveal_strlit("7");
        reveal_strlit("8");
        reveal_strlit("9");
        assert(final(s)@ =~= old(s)@ + seq![digit_char(d as int)]);
    }
}

/// Appends the decimal rendering of `n` to `s`.
pub fn append_dec(s: &mut String, n: u64)
    ensures
        final(s)@ == old(s)@ + dec_digits(n as int),
    decreases n,
{
    if n >= 10 {
        append_dec(s, n / 10);
    }
    append_digit(s, n % 10);
    proof {
        assert(final(s)@ =~= old(s)@ + dec_digits(n as int));
    }
}

} // verus!
