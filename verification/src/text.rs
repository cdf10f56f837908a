//! Character-sequence utilities shared by the parser, the store and the
//! bookmark synthesizer: lexicographic order, substring search, trimming,
//! decimal parsing and formatting.

use vstd::prelude::*;

verus! {

/// Strict lexicographic order on character sequences by code point.
/// For UTF-8 encoded text this coincides with byte order, which is the
/// order an embedded SQL store gives its TEXT columns.
pub open spec fn lex_lt(a: Seq<char>, b: Seq<char>) -> bool
    decreases a.len(),
{
    if b.len() == 0 {
        false
    } else if a.len() == 0 {
        true
    } else if a[0] != b[0] {
        (a[0] as u32) < (b[0] as u32)
    } else {
        lex_lt(a.drop_first(), b.drop_first())
    }
}

proof fn lemma_lex_lt_step(a: Seq<char>, b: Seq<char>, i: int)
    requires
        0 <= i < a.len(),
        i < b.len(),
        a[i] == b[i],
    ensures
        lex_lt(a.skip(i), b.skip(i)) == lex_lt(a.skip(i + 1), b.skip(i + 1)),
{
    assert(a.skip(i).drop_first() =~= a.skip(i + 1));
    assert(b.skip(i).drop_first() =~= b.skip(i + 1));
    assert(a.skip(i)[0] == a[i]);
    assert(b.skip(i)[0] == b[i]);
}

/// Compares two strings in the order `lex_lt` describes.
pub fn str_lt(a: &str, b: &str) -> (r: bool)
    ensures
        r == lex_lt(a@, b@),
{
    let alen = a.unicode_len();
    let blen = b.unicode_len();
    let mut i: usize = 0;
    proof {
        assert(a@.skip(0) =~= a@);
        assert(b@.skip(0) =~= b@);
    }
    loop
        invariant
            i <= alen,
            i <= blen,
            alen == a@.len(),
            blen == b@.len(),
            lex_lt(a@, b@) == lex_lt(a@.skip(i as int), b@.skip(i as int)),
            forall|j: int| 0 <= j < i ==> a@[j] == b@[j],
        decreases alen - i,
    {
        if i >= blen {
            proof {
                assert(b@.skip(i as int).len() == 0);
            }
            return false;
        }
        if i >= alen {
            proof {
                assert(a@.skip(i as int).len() == 0);
                assert(b@.skip(i as int).len() > 0);
            }
            return true;
        }
        let ca = a.get_char(i);
        let cb = b.get_char(i);
        if ca != cb {
            proof {
                assert(a@.skip(i as int)[0] == a@[i as int]);
                assert(b@.skip(i as int)[0] == b@[i as int]);
            }
            return (ca as u32) < (cb as u32);
        }
        proof {
            lemma_lex_lt_step(a@, b@, i as int);
        }
        i = i + 1;
    }
}

/// `hay` matches `needle` exactly at offset `i`.
pub open spec fn matches_at(needle: Seq<char>, hay: Seq<char>, i: int) -> bool {
    0 <= i && i + needle.len() <= hay.len() && hay.subrange(i, i + needle.len()) == needle
}

/// `needle` occurs contiguously inside `hay`.
pub open spec fn is_substring(needle: Seq<char>, hay: Seq<char>) -> bool {
    exists|i: int| #[trigger] matches_at(needle, hay, i)
}

/// Tests one candidate offset of a substring search.
pub fn matches_at_exec(needle: &str, hay: &str, i: usize) -> (r: bool)
    requires
        i + needle@.len() <= hay@.len(),
    ensures
        r == matches_at(needle@, hay@, i as int),
{
    let nlen = needle.unicode_len();
    let hlen = hay.unicode_len();
    let mut j: usize = 0;
    while j < nlen
        invariant
            j <= nlen,
            nlen == needle@.len(),
            hlen == hay@.len(),
            i + nlen <= hay@.len(),
            forall|k: int| 0 <= k < j ==> hay@[i + k] == needle@[k],
        decreases nlen - j,
    {
        if hay.get_char(i + j) != needle.get_char(j) {
            proof {
                let sub = hay@.subrange(i as int, i + needle@.len());
                assert(sub[j as int] == hay@[i + j]);
                assert(sub != needle@);
            }
            return false;
        }
        j = j + 1;
    }
    proof {
        let sub = hay@.subrange(i as int, i + needle@.len());
        assert(sub =~= needle@);
    }
    true
}

/// Substring search, exactly `is_substring` of the views.
pub fn contains_sub(hay: &str, needle: &str) -> (r: bool)
    ensures
        r == is_substring(needle@, hay@),
{
    let hlen = hay.unicode_len();
    let nlen = needle.unicode_len();
    if nlen > hlen {
        proof {
            assert(forall|i: int| !matches_at(needle@, hay@, i));
        }
        return false;
    }
    if nlen == 0 {
        proof {
            assert(hay@.subrange(0, 0) =~= needle@);
            assert(matches_at(needle@, hay@, 0));
        }
        return true;
    }
    let mut i: usize = 0;
    while i <= hlen - nlen
        invariant
            hlen == hay@.len(),
            nlen == needle@.len(),
            0 < nlen <= hlen,
            i <= hlen - nlen + 1,
            forall|k: int| 0 <= k < i ==> !matches_at(needle@, hay@, k),
        decreases hlen - nlen + 1 - i,
    {
        if matches_at_exec(needle, hay, i) {
            return true;
        }
        i = i + 1;
    }
    proof {
        assert(forall|k: int| !matches_at(needle@, hay@, k));
    }
    false
}

/// Character-for-character equality of two strings.
pub fn str_eq(a: &str, b: &str) -> (r: bool)
    ensures
        r == (a@ == b@),
{
    let alen = a.unicode_len();
    let blen = b.unicode_len();
    if alen != blen {
        return false;
    }
    let mut i: usize = 0;
    while i < alen
        invariant
            i <= alen,
            alen == a@.len(),
            blen == b@.len(),
            alen == blen,
            forall|k: int| 0 <= k < i ==> a@[k] == b@[k],
        decreases alen - i,
    {
        if a.get_char(i) != b.get_char(i) {
            return false;
        }
        i = i + 1;
    }
    proof {
        assert(a@ =~= b@);
    }
    true
}

/// `i` is the last offset at which `needle` occurs in `hay`.
pub open spec fn is_last_match(needle: Seq<char>, hay: Seq<char>, i: int) -> bool {
    matches_at(needle, hay, i) && forall|j: int| i < j ==> !matches_at(needle, hay, j)
}

/// The last offset at which `needle` occurs in `hay`, if it occurs at all.
pub open spec fn last_match(needle: Seq<char>, hay: Seq<char>) -> Option<int> {
    if exists|i: int| is_last_match(needle, hay, i) {
        Some(choose|i: int| is_last_match(needle, hay, i))
    } else {
        None
    }
}

proof fn lemma_last_match_exists(needle: Seq<char>, hay: Seq<char>, i: int)
    requires
        matches_at(needle, hay, i),
    ensures
        exists|k: int| is_last_match(needle, hay, k),
    decreases hay.len() - i,
{
    if forall|j: int| i < j ==> !matches_at(needle, hay, j) {
        assert(is_last_match(needle, hay, i));
    } else {
        let j = choose|j: int| i < j && matches_at(needle, hay, j);
        lemma_last_match_exists(needle, hay, j);
    }
}

proof fn lemma_last_match_unique(needle: Seq<char>, hay: Seq<char>, i: int, j: int)
    requires
        is_last_match(needle, hay, i),
        is_last_match(needle, hay, j),
    ensures
        i == j,
{
}

/// Finds the last occurrence of `needle` in `hay`, exactly `last_match`.
pub fn rfind_sub(hay: &str, needle: &str) -> (r: Option<usize>)
    ensures
        match r {
            Option::Some(i) => last_match(needle@, hay@) == Option::Some(i as int),
            Option::None => last_match(needle@, hay@) is None,
        },
{
    let hlen = hay.unicode_len();
    let nlen = needle.unicode_len();
    if nlen > hlen {
        proof {
            assert(forall|i: int| !matches_at(needle@, hay@, i));
        }
        return None;
    }
    let mut i: usize = hlen - nlen;
    loop
        invariant
            nlen <= hlen,
            hlen == hay@.len(),
            nlen == needle@.len(),
            i <= hlen - nlen,
            forall|j: int| i < j ==> !matches_at(needle@, hay@, j),
        decreases i,
    {
        if matches_at_exec(needle, hay, i) {
            proof {
                assert(is_last_match(needle@, hay@, i as int));
                lemma_last_match_exists(needle@, hay@, i as int);
                let k = choose|k: int| is_last_match(needle@, hay@, k);
                lemma_last_match_unique(needle@, hay@, i as int, k);
            }
            return Some(i);
        }
        if i == 0 {
            proof {
                assert(forall|j: int| !matches_at(needle@, hay@, j));
                if exists|k: int| is_last_match(needle@, hay@, k) {
                    let k = choose|k: int| is_last_match(needle@, hay@, k);
                    assert(!matches_at(needle@, hay@, k));
                }
            }
            return None;
        }
        i = i - 1;
    }
}

/// `s` begins with `p`.
pub open spec fn starts_with(s: Seq<char>, p: Seq<char>) -> bool {
    p.len() <= s.len() && s.subrange(0, p.len() as int) == p
}

/// `s` ends with `p`.
pub open spec fn ends_with(s: Seq<char>, p: Seq<char>) -> bool {
    p.len() <= s.len() && s.subrange(s.len() - p.len(), s.len() as int) == p
}

/// Prefix test, exactly `starts_with` of the views.
pub fn starts_with_str(s: &str, p: &str) -> (r: bool)
    ensures
        r == starts_with(s@, p@),
{
    let slen = s.unicode_len();
    let plen = p.unicode_len();
    if plen > slen {
        return false;
    }
    let r = matches_at_exec(p, s, 0);
    proof {
        assert(matches_at(p@, s@, 0) == starts_with(s@, p@));
    }
    r
}

/// Total order: `lex_lt` or equal.
pub open spec fn lex_le(a: Seq<char>, b: Seq<char>) -> bool {
    lex_lt(a, b) || a == b
}

/// `lex_lt` never relates a sequence to itself.
pub proof fn lemma_lex_lt_irreflexive(a: Seq<char>)
    ensures
        !lex_lt(a, a),
    decreases a.len(),
{
    if a.len() > 0 {
        lemma_lex_lt_irreflexive(a.drop_first());
    }
}

/// Any two character sequences are ordered or equal.
pub proof fn lemma_lex_lt_total(a: Seq<char>, b: Seq<char>)
    ensures
        lex_lt(a, b) || lex_lt(b, a) || a == b,
    decreases a.len(),
{
    if a.len() == 0 && b.len() == 0 {
        assert(a =~= b);
    } else if a.len() > 0 && b.len() > 0 && a[0] == b[0] {
        lemma_lex_lt_total(a.drop_first(), b.drop_first());
        if a.drop_first() == b.drop_first() {
            assert(a.len() == b.len()) by {
                assert(a.drop_first().len() == b.drop_first().len());
            }
            assert forall|i: int| 0 <= i < a.len() implies a[i] == b[i] by {
                if i > 0 {
                    assert(a.drop_first()[i - 1] == b.drop_first()[i - 1]);
                    assert(a.drop_first()[i - 1] == a.subrange(1, a.len() as int)[i - 1]);
                    assert(a.subrange(1, a.len() as int)[i - 1] == a[i]);
                    assert(b.subrange(1, b.len() as int)[i - 1] == b[i]);
                }
            }
            assert(a =~= b);
        }
    } else if a.len() > 0 && b.len() > 0 {
        if a[0] as u32 == b[0] as u32 {
            vstd::utf8::char_u32_cast(a[0], a[0] as u32);
            vstd::utf8::char_u32_cast(b[0], b[0] as u32);
            assert(false);
        }
    }
}

/// `lex_lt` is transitive.
pub proof fn lemma_lex_lt_transitive(a: Seq<char>, b: Seq<char>, c: Seq<char>)
    requires
        lex_lt(a, b),
        lex_lt(b, c),
    ensures
        lex_lt(a, c),
    decreases a.len(),
{
    if a.len() > 0 && b.len() > 0 && c.len() > 0 && a[0] == b[0] && b[0] == c[0] {
        lemma_lex_lt_transitive(a.drop_first(), b.drop_first(), c.drop_first());
    }
}

/// The characters the `White_Space` property of Unicode lists, the set that
/// `trim` removes from the ends of a string.
pub open spec fn is_wspace(c: char) -> bool {
    ||| 0x9 <= c as u32 <= 0xD
    ||| c as u32 == 0x20
    ||| c as u32 == 0x85
    ||| c as u32 == 0xA0
    ||| c as u32 == 0x1680
    ||| 0x2000 <= c as u32 <= 0x200A
    ||| c as u32 == 0x2028
    ||| c as u32 == 0x2029
    ||| c as u32 == 0x202F
    ||| c as u32 == 0x205F
    ||| c as u32 == 0x3000
}

/// Decides `is_wspace`.
pub fn is_wspace_char(c: char) -> (r: bool)
    ensures
        r == is_wspace(c),
{
    let u = c as u32;
    (0x9 <= u && u <= 0xD) || u == 0x20 || u == 0x85 || u == 0xA0 || u == 0x1680 || (0x2000 <= u
        && u <= 0x200A) || u == 0x2028 || u == 0x2029 || u == 0x202F || u == 0x205F || u == 0x3000
}

/// `s` without leading white space.
pub open spec fn trim_front(s: Seq<char>) -> Seq<char>
    decreases s.len(),
{
    if s.len() > 0 && is_wspace(s[0]) {
        trim_front(s.drop_first())
    } else {
        s
    }
}

/// `s` without trailing white space.
pub open spec fn trim_back(s: Seq<char>) -> Seq<char>
    decreases s.len(),
{
    if s.len() > 0 && is_wspace(s[s.len() - 1]) {
        trim_back(s.drop_last())
    } else {
        s
    }
}

/// `s` without leading and trailing white space.
pub open spec fn trim_spec(s: Seq<char>) -> Seq<char> {
    trim_back(trim_front(s))
}

proof fn lemma_trim_front_at(s: Seq<char>, a: int)
    requires
        0 <= a <= s.len(),
        forall|k: int| 0 <= k < a ==> is_wspace(s[k]),
        a < s.len() ==> !is_wspace(s[a]),
    ensures
        trim_front(s) == s.skip(a),
    decreases a,
{
    if a == 0 {
        assert(s.skip(0) =~= s);
    } else {
        assert(is_wspace(s[0]));
        lemma_trim_front_at(s.drop_first(), a - 1);
        assert(s.drop_first().skip(a - 1) =~= s.skip(a));
    }
}

proof fn lemma_trim_back_at(s: Seq<char>, b: int)
    requires
        -1 <= b < s.len(),
        forall|k: int| b < k < s.len() ==> is_wspace(s[k]),
        b >= 0 ==> !is_wspace(s[b]),
    ensures
        trim_back(s) == s.take(b + 1),
    decreases s.len(),
{
    if b == s.len() - 1 {
        assert(s.take(s.len() as int) =~= s);
    } else {
        assert(is_wspace(s[s.len() - 1]));
        lemma_trim_back_at(s.drop_last(), b);
        assert(s.drop_last().take(b + 1) =~= s.take(b + 1));
    }
}

/// Removes leading and trailing white space, exactly `trim_spec`.
pub fn trim_str(s: &str) -> (r: String)
    ensures
        r@ == trim_spec(s@),
{
    let len = s.unicode_len();
    let mut a: usize = 0;
    while a < len && is_wspace_char(s.get_char(a))
        invariant
            a <= len,
            len == s@.len(),
            forall|k: int| 0 <= k < a ==> is_wspace(s@[k]),
        decreases len - a,
    {
        a = a + 1;
    }
    if a == len {
        proof {
            lemma_trim_front_at(s@, a as int);
            assert(s@.skip(len as int) =~= Seq::<char>::empty());
            assert(trim_back(Seq::<char>::empty()) =~= Seq::<char>::empty());
        }
        return String::new();
    }
    let mut b: usize = len - 1;
    while b > a && is_wspace_char(s.get_char(b))
        invariant
            a <= b < len,
            len == s@.len(),
            !is_wspace(s@[a as int]),
            forall|k: int| b < k < len ==> is_wspace(s@[k]),
        decreases b,
    {
        b = b - 1;
    }
    let r = s.substring_char(a, b + 1);
    proof {
        lemma_trim_front_at(s@, a as int);
        lemma_trim_back_at(s@.skip(a as int), b - a as int);
        assert(s@.skip(a as int).take(b + 1 - a) =~= s@.subrange(a as int, b + 1));
    }
    String::from_str(r)
}

/// A level token with at most one leading `[` and one trailing `]` removed.
pub open spec fn strip_level(s: Seq<char>) -> Seq<char> {
    let t = if s.len() > 0 && s[0] == '[' {
        s.drop_first()
    } else {
        s
    };
    if t.len() > 0 && t[t.len() - 1] == ']' {
        t.drop_last()
    } else {
        t
    }
}

/// Removes at most one leading `[` and one trailing `]`, exactly `strip_level`.
pub fn strip_level_str(s: &str) -> (r: String)
    ensures
        r@ == strip_level(s@),
{
    let len = s.unicode_len();
    let a: usize = if len > 0 && s.get_char(0) == '[' {
        1
    } else {
        0
    };
    let b: usize = if len > a && s.get_char(len - 1) == ']' {
        len - 1
    } else {
        len
    };
    let r = s.substring_char(a, b);
    proof {
        let t = if s@.len() > 0 && s@[0] == '[' {
            s@.drop_first()
        } else {
            s@
        };
        assert(t =~= s@.subrange(a as int, s@.len() as int));
        assert(strip_level(s@) =~= s@.subrange(a as int, b as int));
    }
    String::from_str(r)
}

/// An ASCII decimal digit.
pub open spec fn is_digit(c: char) -> bool {
    48 <= c as u32 <= 57
}

/// Every character of `s` is a decimal digit.
pub open spec fn all_digits(s: Seq<char>) -> bool {
    forall|i: int| 0 <= i < s.len() ==> is_digit(#[trigger] s[i])
}

/// The value of a digit string read in base ten.
pub open spec fn digits_val(s: Seq<char>) -> int
    decreases s.len(),
{
    if s.len() == 0 {
        0
    } else {
        digits_val(s.drop_last()) * 10 + (s[s.len() - 1] as u32 - 48)
    }
}

/// What a non-negative base-ten parse of `s` yields: the value of `s` when it
/// is one or more digits, and nothing otherwise.
pub open spec fn parse_dec(s: Seq<char>) -> Option<int> {
    if s.len() > 0 && all_digits(s) {
        Some(digits_val(s))
    } else {
        None
    }
}

proof fn lemma_digits_val_nonneg(s: Seq<char>)
    requires
        all_digits(s),
    ensures
        digits_val(s) >= 0,
    decreases s.len(),
{
    if s.len() > 0 {
        assert(all_digits(s.drop_last())) by {
            assert(forall|i: int|
                0 <= i < s.len() - 1 ==> s.drop_last()[i] == #[trigger] s[i]);
        }
        lemma_digits_val_nonneg(s.drop_last());
    }
}

proof fn lemma_digits_val_prefix_le(s: Seq<char>, i: int)
    requires
        all_digits(s),
        0 <= i <= s.len(),
    ensures
        digits_val(s.take(i)) <= digits_val(s),
    decreases s.len() - i,
{
    if i < s.len() {
        lemma_digits_val_prefix_le(s, i + 1);
        let t = s.take(i + 1);
        assert(all_digits(t)) by {
            assert(forall|k: int| 0 <= k < t.len() ==> t[k] == #[trigger] s[k]);
        }
        assert(t.drop_last() =~= s.take(i));
        lemma_digits_val_nonneg(t.drop_last());
        assert(digits_val(t) == digits_val(s.take(i)) * 10 + (t[i] as u32 - 48));
        assert(digits_val(s.take(i)) <= digits_val(t));
    } else {
        assert(s.take(i) =~= s);
    }
}

/// Base-ten parse into `usize`; exactly `parse_dec` wherever the value fits
/// the machine word, and nothing where it does not.
pub fn parse_usize(s: &str) -> (r: Option<usize>)
    ensures
        match parse_dec(s@) {
            Option::None => r is None,
            Option::Some(v) => 0 <= v && (if v <= usize::MAX {
                r == Option::Some(v as usize)
            } else {
                r is None
            }),
        },
{
    let len = s.unicode_len();
    if len == 0 {
        return None;
    }
    let mut acc: usize = 0;
    let mut i: usize = 0;
    while i < len
        invariant
            i <= len,
            len == s@.len(),
            all_digits(s@.take(i as int)),
            acc == digits_val(s@.take(i as int)),
        decreases len - i,
    {
        let c = s.get_char(i);
        let u = c as u32;
        if u < 48 || u > 57 {
            proof {
                assert(!is_digit(s@[i as int]));
            }
            return None;
        }
        let d = (u - 48) as usize;
        proof {
            let t = s@.take(i + 1);
            assert(forall|k: int| 0 <= k < i ==> t[k] == #[trigger] s@.take(i as int)[k]);
            assert(t.drop_last() =~= s@.take(i as int));
            assert(all_digits(t));
        }
        let step = match acc.checked_mul(10) {
            Option::Some(m) => m.checked_add(d),
            Option::None => None,
        };
        match step {
            Option::Some(v) => {
                acc = v;
            },
            Option::None => {
                proof {
                    let t = s@.take(i + 1);
                    assert(digits_val(t) == acc * 10 + d);
                    if all_digits(s@) {
                        assert(s@.take(i + 1) =~= s@.take(s@.len() as int).take(i + 1));
                        assert(s@.take(s@.len() as int) =~= s@);
                        lemma_digits_val_prefix_le(s@, i + 1);
                        assert(digits_val(s@) > usize::MAX);
                    }
                }
                return None;
            },
        }
        i = i + 1;
    }
    proof {
        assert(s@.take(len as int) =~= s@);
    }
    Some(acc)
}

/// The character of one decimal digit.
pub open spec fn dec_digit(d: int) -> char {
    if d == 0 {
        '0'
    } else if d == 1 {
        '1'
    } else if d == 2 {
        '2'
    } else if d == 3 {
        '3'
    } else if d == 4 {
        '4'
    } else if d == 5 {
        '5'
    } else if d == 6 {
        '6'
    } else if d == 7 {
        '7'
    } else if d == 8 {
        '8'
    } else {
        '9'
    }
}

/// The decimal notation of a non-negative integer.
pub open spec fn dec_str(n: int) -> Seq<char>
    decreases n,
{
    if n < 0 {
        Seq::empty()
    } else if n < 10 {
        seq![dec_digit(n)]
    } else {
        dec_str(n / 10).push(dec_digit(n % 10))
    }
}

/// The decimal notation of an integer, with a sign where it is negative.
pub open spec fn dec_int_str(n: int) -> Seq<char> {
    if n < 0 {
        seq!['-'] + dec_str(-n)
    } else {
        dec_str(n)
    }
}

fn digit_str(d: u64) -> (r: &'static str)
    requires
        d < 10,
    ensures
        r@ =~= seq![dec_digit(d as int)],
{
    proof {
        reveal_strlit("0");
        reveal_strlit("1");
        reveal_strlit("2");
        reveal_strlit("3");
        reveal_strlit("4");
        reveal_strlit("5");
        reveal_strlit("6");
        reveal_strlit("7");
        reveal_strlit("8");
        reveal_strlit("9");
    }
    if d == 0 {
        "0"
    } else if d == 1 {
        "1"
    } else if d == 2 {
        "2"
    } else if d == 3 {
        "3"
    } else if d == 4 {
        "4"
    } else if d == 5 {
        "5"
    } else if d == 6 {
        "6"
    } else if d == 7 {
        "7"
    } else if d == 8 {
        "8"
    } else {
        "9"
    }
}

/// Formats a `u64` in decimal, exactly `dec_str`.
pub fn u64_to_string(n: u64) -> (r: String)
    ensures
        r@ == dec_str(n as int),
{
    let mut m = n;
    let mut out = String::new();
    if m == 0 {
        return String::from_str(digit_str(0));
    }
    proof {
        assert(dec_str(n as int) =~= dec_str(n as int) + out@);
    }
    while m > 0
        invariant
            m > 0 ==> dec_str(n as int) == dec_str(m as int) + out@,
            m == 0 ==> out@ == dec_str(n as int),
        decreases m,
    {
        let ghost m0 = m as int;
        let ghost out0 = out@;
        let d = m % 10;
        let rest = m / 10;
        let out2 = String::from_str(digit_str(d)).concat(out.as_str());
        out = out2;
        m = rest;
        proof {
            if m0 >= 10 {
                assert(m0 / 10 >= 1);
                assert(dec_str(m0) == dec_str(m0 / 10).push(dec_digit(m0 % 10)));
                assert(dec_str(m0 / 10).push(dec_digit(m0 % 10)) + out0 =~= dec_str(m0 / 10) + (
                seq![dec_digit(m0 % 10)] + out0));
                assert(dec_str(n as int) == dec_str(m as int) + out@);
            } else {
                assert(m0 / 10 == 0);
                assert(dec_str(m0) == seq![dec_digit(m0)]);
                assert(dec_str(m0) + out0 =~= seq![dec_digit(m0 % 10)] + out0);
                assert(out@ == dec_str(n as int));
            }
        }
    }
    out
}

/// Formats an `i64` in decimal, exactly `dec_int_str`.
pub fn i64_to_string(n: i64) -> (r: String)
    ensures
        r@ == dec_int_str(n as int),
{
    if n >= 0 {
        u64_to_string(n as u64)
    } else {
        let mag: u64 = ((-(n as i128)) as u64);
        proof {
            reveal_strlit("-");
        }
        let r = String::from_str("-").concat(u64_to_string(mag).as_str());
        proof {
            assert(r@ =~= dec_int_str(n as int));
        }
        r
    }
}

/// Suffix test, exactly `ends_with` of the views.
pub fn ends_with_str(s: &str, p: &str) -> (r: bool)
    ensures
        r == ends_with(s@, p@),
{
    let slen = s.unicode_len();
    let plen = p.unicode_len();
    if plen > slen {
        return false;
    }
    let r = matches_at_exec(p, s, slen - plen);
    proof {
        assert(matches_at(p@, s@, s@.len() - p@.len()) == ends_with(s@, p@));
    }
    r
}

} // verus!
