//! Character-level helpers: decimal numbers, column letters, and string building.
use vstd::prelude::*;

verus! {

/// Upper-case ASCII letter.
pub open spec fn is_upper(c: char) -> bool {
    'A' <= c <= 'Z'
}

/// Decimal ASCII digit.
pub open spec fn is_digit(c: char) -> bool {
    '0' <= c <= '9'
}

pub open spec fn digit_val(c: char) -> int {
    (c as int) - 48
}

/// Position of an upper-case letter in the alphabet, starting at 1 for `A`.
pub open spec fn letter_val(c: char) -> int {
    (c as int) - 64
}

pub open spec fn all_digits(s: Seq<char>) -> bool {
    forall|i: int| 0 <= i < s.len() ==> is_digit(#[trigger] s[i])
}

pub open spec fn all_upper(s: Seq<char>) -> bool {
    forall|i: int| 0 <= i < s.len() ==> is_upper(#[trigger] s[i])
}

/// Value of a string of decimal digits, most significant first.
pub open spec fn digits_value(s: Seq<char>) -> int
    decreases s.len(),
{
    if s.len() == 0 {
        0
    } else {
        digits_value(s.drop_last()) * 10 + digit_val(s.last())
    }
}

/// Value of a column name in bijective base 26 (`A` = 1, `Z` = 26, `AA` = 27).
pub open spec fn letters_value(s: Seq<char>) -> int
    decreases s.len(),
{
    if s.len() == 0 {
        0
    } else {
        letters_value(s.drop_last()) * 26 + letter_val(s.last())
    }
}

/// What `str::parse::<i32>` accepts: an optional sign, then at least one digit,
/// with a value that fits in an `i32`.
pub open spec fn parse_int_spec(s: Seq<char>) -> Option<int> {
    if s.len() > 0 && (s[0] == '+' || s[0] == '-') {
        let d = s.drop_first();
        if d.len() > 0 && all_digits(d) {
            if s[0] == '-' {
                Some(-digits_value(d))
            } else {
                Some(digits_value(d))
            }
        } else {
            None
        }
    } else if s.len() > 0 && all_digits(s) {
        Some(digits_value(s))
    } else {
        None
    }
}

pub open spec fn parse_i32_spec(s: Seq<char>) -> Option<i32> {
    match parse_int_spec(s) {
        Some(v) => if i32::MIN <= v <= i32::MAX {
            Some(v as i32)
        } else {
            None
        },
        None => None,
    }
}

pub open spec fn digit_char(d: int) -> char {
    (48 + d) as char
}

pub open spec fn letter_char(i: int) -> char {
    (65 + i) as char
}

/// Decimal text of a natural number, without leading zeros.
pub open spec fn nat_text(n: nat) -> Seq<char>
    decreases n,
{
    if n < 10 {
        seq![digit_char(n as int)]
    } else {
        nat_text((n / 10) as nat).push(digit_char((n % 10) as int))
    }
}

/// Decimal text of an integer, as `Display` writes it.
pub open spec fn int_text(v: int) -> Seq<char> {
    if v < 0 {
        seq!['-'] + nat_text((-v) as nat)
    } else {
        nat_text(v as nat)
    }
}

/// Letters of the column whose bijective base-26 value is `n` (`n` = index + 1).
pub open spec fn col_letters(n: nat) -> Seq<char>
    decreases n,
{
    if n == 0 {
        seq![]
    } else {
        col_letters(((n - 1) / 26) as nat).push(letter_char((n - 1) % 26))
    }
}

pub proof fn lemma_digits_value_nonneg(s: Seq<char>)
    requires
        all_digits(s),
    ensures
        digits_value(s) >= 0,
    decreases s.len(),
{
    if s.len() > 0 {
        assert(all_digits(s.drop_last()));
        lemma_digits_value_nonneg(s.drop_last());
        assert(is_digit(s[s.len() - 1]));
    }
}

pub proof fn lemma_letters_value_nonneg(s: Seq<char>)
    requires
        all_upper(s),
    ensures
        letters_value(s) >= s.len(),
    decreases s.len(),
{
    if s.len() > 0 {
        assert(all_upper(s.drop_last()));
        lemma_letters_value_nonneg(s.drop_last());
        assert(is_upper(s[s.len() - 1]));
    }
}

/// Column letters are upper-case, and reading them back gives the value they were made from.
pub proof fn lemma_col_letters_roundtrip(n: nat)
    ensures
        all_upper(col_letters(n)),
        letters_value(col_letters(n)) == n,
    decreases n,
{
    if n > 0 {
        let q = ((n - 1) / 26) as nat;
        lemma_col_letters_roundtrip(q);
        let s = col_letters(n);
        assert(s.drop_last() =~= col_letters(q));
        assert(s.last() == letter_char((n - 1) % 26));
        assert(all_upper(s)) by {
            assert forall|i: int| 0 <= i < s.len() implies is_upper(#[trigger] s[i]) by {
                if i < s.len() - 1 {
                    assert(s[i] == col_letters(q)[i]);
                }
            }
        }
    }
}

/// Column names grow in length with their value: one letter up to 26, two up to 702,
/// three up to 18278.
pub proof fn lemma_col_letters_len(n: nat)
    ensures
        n == 0 ==> col_letters(n).len() == 0,
        1 <= n <= 26 ==> col_letters(n).len() == 1,
        27 <= n <= 702 ==> col_letters(n).len() == 2,
        703 <= n <= 18278 ==> col_letters(n).len() == 3,
    decreases n,
{
    if n > 0 {
        let q = ((n - 1) / 26) as nat;
        lemma_col_letters_len(q);
        assert(col_letters(n).len() == col_letters(q).len() + 1);
        if n <= 26 {
            assert(q == 0);
        } else if n <= 702 {
            assert(1 <= q <= 26);
        } else if n <= 18278 {
            assert(27 <= q <= 702);
        }
    }
}

pub open spec fn letters_bound(len: nat) -> int {
    if len == 0 {
        0
    } else if len == 1 {
        26
    } else if len == 2 {
        702
    } else {
        18278
    }
}

/// The value read from a string of at most three upper-case letters fits the column range.
pub proof fn lemma_letters_value_bound(s: Seq<char>)
    requires
        all_upper(s),
        s.len() <= 3,
    ensures
        letters_value(s) <= letters_bound(s.len()),
        letters_value(s) <= 18278,
        s.len() >= 1 ==> letters_value(s) >= 1,
    decreases s.len(),
{
    if s.len() > 0 {
        assert(all_upper(s.drop_last()));
        lemma_letters_value_bound(s.drop_last());
        lemma_letters_value_nonneg(s.drop_last());
        assert(is_upper(s[s.len() - 1]));
    }
}

/// Appends one character to a string.
#[verifier::external_body]
pub(crate) fn push_char(s: &mut String, c: char)
    ensures
        final(s)@ == old(s)@.push(c),
{
    s.push(c);
}

/// Appends the decimal text of `n`.
pub fn push_nat(s: &mut String, n: u64)
    ensures
        final(s)@ == old(s)@ + nat_text(n as nat),
    decreases n,
{
    if n >= 10 {
        push_nat(s, n / 10);
    }
    let d = (n % 10) as u8;
    push_char(s, (48u8 + d) as char);
    proof {
        if n >= 10 {
            assert(nat_text(n as nat) == nat_text((n / 10) as nat).push(digit_char((n % 10) as int)));
        } else {
            assert(nat_text(n as nat) == seq![digit_char(n as int)]);
        }
    }
}

/// Appends the decimal text of `v`, with a leading `-` when negative.
pub fn push_int(s: &mut String, v: i64)
    ensures
        final(s)@ == old(s)@ + int_text(v as int),
{
    if v < 0 {
        push_char(s, '-');
        let m: u64 = if v == i64::MIN {
            9223372036854775808u64
        } else {
            (-v) as u64
        };
        push_nat(s, m);
        proof {
            assert(final(s)@ =~= old(s)@ + int_text(v as int));
        }
    } else {
        push_nat(s, v as u64);
    }
}

/// Appends every character of `t`.
pub fn push_chars(s: &mut String, t: &Vec<char>)
    ensures
        final(s)@ == old(s)@ + t@,
{
    let ghost s0 = s@;
    let mut i: usize = 0;
    while i < t.len()
        invariant
            0 <= i <= t.len(),
            s@ == s0 + t@.subrange(0, i as int),
        decreases t.len() - i,
    {
        push_char(s, t[i]);
        i += 1;
        proof {
            assert(t@.subrange(0, i as int) =~= t@.subrange(0, i - 1).push(t@[i - 1]));
        }
    }
    proof {
        assert(t@.subrange(0, t@.len() as int) =~= t@);
    }
}

/// Appends the text of `t`.
pub fn push_str(s: &mut String, t: &str)
    ensures
        final(s)@ == old(s)@ + t@,
{
    let v = chars_of(t);
    push_chars(s, &v);
}

/// The characters of a string, in order.
pub fn chars_of(s: &str) -> (v: Vec<char>)
    ensures
        v@ == s@,
{
    let mut v: Vec<char> = Vec::new();
    for c in it: s.chars()
        invariant
            v@ == it.seq().subrange(0, it.index() as int),
    {
        v.push(c);
    }
    proof {
        assert(v@ =~= s@);
    }
    v
}

/// A string holding exactly the given characters.
pub fn string_of(t: &Vec<char>) -> (s: String)
    ensures
        s@ == t@,
{
    let mut s = String::new();
    push_chars(&mut s, t);
    proof {
        assert(s@ =~= t@);
    }
    s
}

/// Parses `t[lo..hi]` as `str::parse::<i32>` does.
pub fn parse_i32_chars(t: &Vec<char>, lo: usize, hi: usize) -> (r: Option<i32>)
    requires
        lo <= hi <= t.len(),
    ensures
        r == parse_i32_spec(t@.subrange(lo as int, hi as int)),
{
    let ghost s = t@.subrange(lo as int, hi as int);
    if lo == hi {
        return None;
    }
    let mut start = lo;
    let mut neg = false;
    if t[lo] == '+' || t[lo] == '-' {
        neg = t[lo] == '-';
        start = lo + 1;
        if start == hi {
            return None;
        }
    }
    let ghost d = t@.subrange(start as int, hi as int);
    proof {
        if start == lo + 1 {
            assert(d =~= s.drop_first());
        } else {
            assert(d =~= s);
        }
    }
    // Magnitude, capped so that it cannot overflow.
    let cap: i64 = 3000000000;
    let mut v: i64 = 0;
    let mut i = start;
    while i < hi
        invariant
            lo <= start <= i <= hi <= t.len(),
            cap == 3000000000,
            s == t@.subrange(lo as int, hi as int),
            s.len() > 0,
            start == lo + 1 <==> (s[0] == '+' || s[0] == '-'),
            start == lo || start == lo + 1,
            d == (if start == lo + 1 { s.drop_first() } else { s }),
            neg == (start == lo + 1 && s[0] == '-'),
            d.len() > 0,
            d == t@.subrange(start as int, hi as int),
            all_digits(t@.subrange(start as int, i as int)),
            0 <= digits_value(t@.subrange(start as int, i as int)),
            v == (if digits_value(t@.subrange(start as int, i as int)) < cap {
                digits_value(t@.subrange(start as int, i as int))
            } else {
                cap as int
            }),
        decreases hi - i,
    {
        let c = t[i];
        if !('0' <= c && c <= '9') {
            proof {
                assert(d[i - start] == c);
                assert(!all_digits(d));
            }
            return None;
        }
        let ghost p = t@.subrange(start as int, i as int);
        let ghost q = t@.subrange(start as int, i + 1);
        proof {
            assert(q.drop_last() =~= p);
            assert(q.last() == c);
            assert(all_digits(q)) by {
                assert forall|j: int| 0 <= j < q.len() implies is_digit(#[trigger] q[j]) by {
                    if j < p.len() {
                        assert(q[j] == p[j]);
                    }
                }
            }
        }
        let dv = (c as u32 - 48) as i64;
        if v < cap {
            v = v * 10 + dv;
            if v > cap {
                v = cap;
            }
        }
        i += 1;
    }
    proof {
        assert(t@.subrange(start as int, i as int) == d);
    }
    let r: i64 = if neg { -v } else { v };
    if r < i32::MIN as i64 || r > i32::MAX as i64 {
        None
    } else {
        Some(r as i32)
    }
}

/// Parses a whole string as `str::parse::<i32>` does.
pub fn parse_i32(s: &str) -> (r: Option<i32>)
    ensures
        r == parse_i32_spec(s@),
{
    let t = chars_of(s);
    let r = parse_i32_chars(&t, 0, t.len());
    proof {
        assert(t@.subrange(0, t@.len() as int) =~= s@);
    }
    r
}

/// The chars of `t[lo..hi]` as a new vector.
pub fn sub_chars(t: &Vec<char>, lo: usize, hi: usize) -> (r: Vec<char>)
    requires
        lo <= hi <= t.len(),
    ensures
        r@ == t@.subrange(lo as int, hi as int),
{
    let mut r: Vec<char> = Vec::new();
    let mut i = lo;
    while i < hi
        invariant
            lo <= i <= hi <= t.len(),
            r@ == t@.subrange(lo as int, i as int),
        decreases hi - i,
    {
        r.push(t[i]);
        i += 1;
        proof {
            assert(r@ =~= t@.subrange(lo as int, i as int));
        }
    }
    r
}

/// Whether two character vectors hold the same text.
pub fn chars_eq(a: &Vec<char>, b: &Vec<char>) -> (r: bool)
    ensures
        r == (a@ == b@),
{
    if a.len() != b.len() {
        return false;
    }
    let mut i: usize = 0;
    while i < a.len()
        invariant
            a.len() == b.len(),
            0 <= i <= a.len(),
            forall|j: int| 0 <= j < i ==> a@[j] == b@[j],
        decreases a.len() - i,
    {
        if a[i] != b[i] {
            return false;
        }
        i += 1;
    }
    proof {
        assert(a@ =~= b@);
    }
    true
}

/// Whether `t` holds exactly the text `p`.
pub fn text_is(t: &Vec<char>, p: &str) -> (b: bool)
    ensures
        b == (t@ == p@),
{
    let q = chars_of(p);
    chars_eq(t, &q)
}

/// Whether `t` begins with the characters of `p`.
pub fn starts_with(t: &Vec<char>, p: &str) -> (r: bool)
    ensures
        r == (p@.len() <= t@.len() && t@.subrange(0, p@.len() as int) == p@),
{
    let pc = chars_of(p);
    if pc.len() > t.len() {
        return false;
    }
    let mut i: usize = 0;
    while i < pc.len()
        invariant
            pc@ == p@,
            pc.len() <= t.len(),
            0 <= i <= pc.len(),
            forall|j: int| 0 <= j < i ==> t@[j] == pc@[j],
        decreases pc.len() - i,
    {
        if t[i] != pc[i] {
            proof {
                assert(t@.subrange(0, p@.len() as int)[i as int] != p@[i as int]);
            }
            return false;
        }
        i += 1;
    }
    proof {
        assert(t@.subrange(0, p@.len() as int) =~= p@);
    }
    true
}


/// White space as `char::is_whitespace` reads it (the Unicode `White_Space` characters).
pub open spec fn is_ws(c: char) -> bool {
    ||| ('\t' <= c <= '\r')
    ||| c == ' '
    ||| c == '\u{85}'
    ||| c == '\u{a0}'
    ||| c == '\u{1680}'
    ||| ('\u{2000}' <= c <= '\u{200a}')
    ||| c == '\u{2028}'
    ||| c == '\u{2029}'
    ||| c == '\u{202f}'
    ||| c == '\u{205f}'
    ||| c == '\u{3000}'
}

/// Whether `c` is white space.
pub fn ws_char(c: char) -> (b: bool)
    ensures
        b == is_ws(c),
{
    ('\t' <= c && c <= '\r') || c == ' ' || c == '\u{85}' || c == '\u{a0}' || c == '\u{1680}' || (
    '\u{2000}' <= c && c <= '\u{200a}') || c == '\u{2028}' || c == '\u{2029}' || c == '\u{202f}'
        || c == '\u{205f}' || c == '\u{3000}'
}

/// The text without its leading and trailing white space, as `str::trim` gives it.
pub open spec fn trim_spec(s: Seq<char>) -> Seq<char>
    decreases s.len(),
{
    if s.len() == 0 {
        s
    } else if is_ws(s[0]) {
        trim_spec(s.drop_first())
    } else if is_ws(s.last()) {
        trim_spec(s.drop_last())
    } else {
        s
    }
}

/// Bounds `(a, b)` such that `t[a..b]` is `t[lo..hi]` trimmed.
pub fn trim_bounds(t: &Vec<char>, lo: usize, hi: usize) -> (r: (usize, usize))
    requires
        lo <= hi <= t.len(),
    ensures
        lo <= r.0 <= r.1 <= hi,
        t@.subrange(r.0 as int, r.1 as int) == trim_spec(t@.subrange(lo as int, hi as int)),
{
    let mut a = lo;
    while a < hi && ws_char(t[a])
        invariant
            lo <= a <= hi <= t.len(),
            trim_spec(t@.subrange(a as int, hi as int)) == trim_spec(t@.subrange(lo as int, hi as int)),
        decreases hi - a,
    {
        proof {
            assert(t@.subrange(a as int, hi as int).drop_first() =~= t@.subrange(a + 1, hi as int));
        }
        a += 1;
    }
    let mut b = hi;
    while b > a && ws_char(t[b - 1])
        invariant
            lo <= a <= b <= hi <= t.len(),
            a == b || !is_ws(t@[a as int]),
            trim_spec(t@.subrange(a as int, b as int)) == trim_spec(t@.subrange(lo as int, hi as int)),
        decreases b - a,
    {
        proof {
            let u = t@.subrange(a as int, b as int);
            assert(u.drop_last() =~= t@.subrange(a as int, b - 1));
            assert(u[0] == t@[a as int]);
        }
        b -= 1;
    }
    proof {
        let u = t@.subrange(a as int, b as int);
        if a < b {
            assert(u[0] == t@[a as int]);
            assert(u.last() == t@[b - 1]);
        }
    }
    (a, b)
}

/// Index of the first white space in `s`, or -1.
pub open spec fn first_ws(s: Seq<char>, i: int) -> int
    decreases s.len() - i,
{
    if i < 0 || i >= s.len() {
        -1
    } else if is_ws(s[i]) {
        i
    } else {
        first_ws(s, i + 1)
    }
}

pub proof fn lemma_first_ws(s: Seq<char>, i: int, j: int)
    requires
        0 <= i <= j <= s.len(),
        forall|k: int| i <= k < j ==> !is_ws(#[trigger] s[k]),
    ensures
        j < s.len() && is_ws(s[j]) ==> first_ws(s, i) == j,
        j == s.len() ==> first_ws(s, i) == -1,
    decreases j - i,
{
    if i < j {
        lemma_first_ws(s, i + 1, j);
    }
}

/// Index of the first white space in `t[lo..hi]`, counted from `lo`.
pub fn find_ws(t: &Vec<char>, lo: usize, hi: usize) -> (r: Option<usize>)
    requires
        lo <= hi <= t.len(),
    ensures
        match r {
            Some(i) => lo <= i < hi && i - lo == first_ws(t@.subrange(lo as int, hi as int), 0),
            None => first_ws(t@.subrange(lo as int, hi as int), 0) == -1,
        },
{
    let ghost u = t@.subrange(lo as int, hi as int);
    let mut i = lo;
    while i < hi
        invariant
            lo <= i <= hi <= t.len(),
            u == t@.subrange(lo as int, hi as int),
            forall|k: int| 0 <= k < i - lo ==> !is_ws(#[trigger] u[k]),
        decreases hi - i,
    {
        if ws_char(t[i]) {
            proof {
                assert(u[i - lo] == t@[i as int]);
                lemma_first_ws(u, 0, i - lo);
            }
            return Some(i);
        }
        proof {
            assert(u[i - lo] == t@[i as int]);
        }
        i += 1;
    }
    proof {
        lemma_first_ws(u, 0, i - lo);
    }
    None
}

/// The two words of `s` when it holds exactly two, as `split_whitespace` splits.
pub open spec fn two_words(s: Seq<char>) -> Option<(Seq<char>, Seq<char>)> {
    let u = trim_spec(s);
    let i = first_ws(u, 0);
    if u.len() == 0 || i == -1 {
        None
    } else {
        let rest = trim_spec(u.subrange(i, u.len() as int));
        if first_ws(rest, 0) == -1 {
            Some((u.subrange(0, i), rest))
        } else {
            None
        }
    }
}

} // verus!
