//! Character and string utilities shared by the extraction engine, the
//! archive codec and the export renderers: decimal rendering and parsing,
//! character search, and equality of string slices.

use vstd::prelude::*;

verus! {

/// The digit character for a value below ten.
pub open spec fn digit_char(d: nat) -> char
    recommends
        d < 10,
{
    if d == 0 {
        '0'
    } else if d == 1 {
        '1'
    } else if d == 2 {
        '2'
    } else if d == 3 {
        '3'
    } else if d == 4 {
        '4'
    } else if d == 5 {
        '5'
    } else if d == 6 {
        '6'
    } else if d == 7 {
        '7'
    } else if d == 8 {
        '8'
    } else {
        '9'
    }
}

/// The decimal rendering of a number, most significant digit first,
/// with no leading zero except for zero itself.
pub open spec fn dec_str(n: nat) -> Seq<char>
    decreases n,
{
    if n < 10 {
        seq![digit_char(n)]
    } else {
        dec_str(n / 10).push(digit_char(n % 10))
    }
}

pub open spec fn is_dec_digit(c: char) -> bool {
    '0' <= c && c <= '9'
}

pub open spec fn digit_val(c: char) -> nat
    recommends
        is_dec_digit(c),
{
    (c as u32 - '0' as u32) as nat
}

/// The value of a digit string, most significant digit first.
pub open spec fn dec_val(s: Seq<char>) -> nat
    decreases s.len(),
{
    if s.len() == 0 {
        0
    } else {
        dec_val(s.drop_last()) * 10 + digit_val(s.last())
    }
}

pub open spec fn all_dec_digits(s: Seq<char>) -> bool {
    forall|i: int| 0 <= i < s.len() ==> is_dec_digit(#[trigger] s[i])
}

/// Each digit below ten renders to a digit character that reads back as
/// itself.
pub proof fn lemma_digit_roundtrip(d: nat)
    requires
        d < 10,
    ensures
        is_dec_digit(digit_char(d)),
        digit_val(digit_char(d)) == d,
{
}

/// Rendering a number and reading it back yields the number, and the
/// rendering is a nonempty string of digits.
pub proof fn lemma_dec_str_val(n: nat)
    ensures
        dec_val(dec_str(n)) == n,
        dec_str(n).len() >= 1,
        all_dec_digits(dec_str(n)),
    decreases n,
{
    if n < 10 {
        lemma_digit_roundtrip(n);
        let s = dec_str(n);
        assert(s.drop_last() =~= Seq::<char>::empty());
        assert(s.last() == digit_char(n));
        assert(dec_val(s) == dec_val(s.drop_last()) * 10 + digit_val(s.last()));
        assert(dec_val(Seq::<char>::empty()) == 0);
        assert(dec_val(s) == n);
    } else {
        lemma_dec_str_val(n / 10);
        lemma_digit_roundtrip(n % 10);
        assert(dec_str(n).drop_last() =~= dec_str(n / 10));
        assert(dec_val(dec_str(n)) == dec_val(dec_str(n / 10)) * 10 + digit_val(
            dec_str(n).last(),
        ));
        assert((n / 10) * 10 + n % 10 == n) by (nonlinear_arith);
        assert(forall|i: int|
            0 <= i < dec_str(n).len() ==> is_dec_digit(#[trigger] dec_str(n)[i])) by {
            assert(forall|i: int|
                0 <= i < dec_str(n / 10).len() ==> is_dec_digit(#[trigger] dec_str(n / 10)[i]));
            assert(dec_str(n).last() == digit_char(n % 10));
            assert(forall|i: int|
                0 <= i < dec_str(n).len() - 1 ==> dec_str(n)[i] == dec_str(n / 10)[i]);
        }
    }
}

fn digit_str(d: u128) -> (r: &'static str)
    requires
        d < 10,
    ensures
        r@ == seq![digit_char(d as nat)],
{
    proof {
        reveal_strlit("0");
        reveal_strlit("1");
        reveal_strlit("2");
        reveal_strlit("3");
        reveal_strlit("4");
        reveal_strlit("5");
        reveal_strlit("6");
        reveal_strlit("7");
        reveal_strlit("8");
        reveal_strlit("9");
    }
    let r: &'static str = if d == 0 {
        "0"
    } else if d == 1 {
        "1"
    } else if d == 2 {
        "2"
    } else if d == 3 {
        "3"
    } else if d == 4 {
        "4"
    } else if d == 5 {
        "5"
    } else if d == 6 {
        "6"
    } else if d == 7 {
        "7"
    } else if d == 8 {
        "8"
    } else {
        "9"
    };
    proof {
        assert(r@ =~= seq![digit_char(d as nat)]);
    }
    r
}

/// Renders a number in decimal.
pub fn u128_to_string(n: u128) -> (r: String)
    ensures
        r@ == dec_str(n as nat),
    decreases n,
{
    if n < 10 {
        String::from_str(digit_str(n))
    } else {
        let mut s = u128_to_string(n / 10);
        s.append(digit_str(n % 10));
        proof {
            assert(s@ =~= dec_str((n / 10) as nat).push(digit_char((n % 10) as nat)));
        }
        s
    }
}

/// Renders a number in decimal.
pub fn u64_to_string(n: u64) -> (r: String)
    ensures
        r@ == dec_str(n as nat),
{
    u128_to_string(n as u128)
}

/// Renders a number in decimal.
pub fn u32_to_string(n: u32) -> (r: String)
    ensures
        r@ == dec_str(n as nat),
{
    u128_to_string(n as u128)
}

/// The value of a digit-string prefix never exceeds the value of the whole.
pub proof fn lemma_dec_val_prefix_le(s: Seq<char>, k: int)
    requires
        0 <= k <= s.len(),
    ensures
        dec_val(s.take(k)) <= dec_val(s),
    decreases s.len(),
{
    if k < s.len() {
        assert(s.drop_last().take(k) =~= s.take(k));
        lemma_dec_val_prefix_le(s.drop_last(), k);
    } else {
        assert(s.take(k) =~= s);
    }
}

/// Reads a decimal number. Succeeds exactly on nonempty all-digit strings
/// whose value fits.
pub fn parse_dec_u128(s: &str) -> (r: Option<u128>)
    ensures
        match r {
            Some(v) => s@.len() >= 1 && all_dec_digits(s@) && dec_val(s@) == v,
            None => !(s@.len() >= 1 && all_dec_digits(s@) && dec_val(s@) <= u128::MAX),
        },
{
    let len = s.unicode_len();
    if len == 0 {
        return None;
    }
    let mut acc: u128 = 0;
    let mut i: usize = 0;
    while i < len
        invariant
            len == s@.len(),
            i <= len,
            all_dec_digits(s@.take(i as int)),
            acc == dec_val(s@.take(i as int)),
        decreases len - i,
    {
        let c = s.get_char(i);
        if !('0' <= c && c <= '9') {
            proof {
                assert(!is_dec_digit(s@[i as int]));
            }
            return None;
        }
        let d: u32 = c as u32 - '0' as u32;
        if acc > (u128::MAX - d as u128) / 10 {
            proof {
                assert(dec_val(s@.take(i as int + 1)) > u128::MAX) by {
                    assert(s@.take(i as int + 1).drop_last() =~= s@.take(i as int));
                    assert(dec_val(s@.take(i as int + 1)) == acc * 10 + d);
                    assert(acc * 10 + d > u128::MAX) by (nonlinear_arith)
                        requires
                            acc > (u128::MAX - d as u128) / 10 && d < 10,
                    ;
                }
                lemma_dec_val_prefix_le(s@, i as int + 1);
            }
            return None;
        }
        proof {
            assert(s@.take(i as int + 1).drop_last() =~= s@.take(i as int));
            assert(acc * 10 + d <= u128::MAX) by (nonlinear_arith)
                requires
                    acc <= (u128::MAX - d as u128) / 10 && d < 10,
            ;
        }
        acc = acc * 10 + d as u128;
        i += 1;
    }
    proof {
        assert(s@.take(len as int) =~= s@);
    }
    Some(acc)
}

/// Reads a decimal number that must fit in 64 bits.
pub fn parse_dec_u64(s: &str) -> (r: Option<u64>)
    ensures
        match r {
            Some(v) => s@.len() >= 1 && all_dec_digits(s@) && dec_val(s@) == v,
            None => !(s@.len() >= 1 && all_dec_digits(s@) && dec_val(s@) <= u64::MAX),
        },
{
    match parse_dec_u128(s) {
        Some(v) => if v <= u64::MAX as u128 {
            Some(v as u64)
        } else {
            None
        },
        None => None,
    }
}

/// Reads a decimal number that must fit in 32 bits.
pub fn parse_dec_u32(s: &str) -> (r: Option<u32>)
    ensures
        match r {
            Some(v) => s@.len() >= 1 && all_dec_digits(s@) && dec_val(s@) == v,
            None => !(s@.len() >= 1 && all_dec_digits(s@) && dec_val(s@) <= u32::MAX),
        },
{
    match parse_dec_u128(s) {
        Some(v) => if v <= u32::MAX as u128 {
            Some(v as u32)
        } else {
            None
        },
        None => None,
    }
}

/// A run of zero characters.
pub open spec fn zero_chars(k: int) -> Seq<char> {
    if k <= 0 {
        Seq::empty()
    } else {
        Seq::new(k as nat, |i: int| '0')
    }
}

/// The decimal rendering of a number, left-padded with zeros to the width.
pub open spec fn pad_str(n: nat, width: int) -> Seq<char> {
    zero_chars(width - dec_str(n).len()) + dec_str(n)
}

/// Renders a number in decimal, left-padded with zeros to the width.
pub fn padded_u32_to_string(n: u32, width: usize) -> (r: String)
    ensures
        r@ == pad_str(n as nat, width as int),
{
    let digits = u32_to_string(n);
    let dlen = digits.as_str().unicode_len();
    let mut r = String::new();
    let mut k: usize = 0;
    let pad: usize = if width >= dlen {
        width - dlen
    } else {
        0
    };
    while k < pad
        invariant
            dlen == dec_str(n as nat).len(),
            pad == if width >= dlen {
                (width - dlen) as int
            } else {
                0
            },
            k <= pad,
            r@ =~= zero_chars(k as int),
        decreases pad - k,
    {
        r.append("0");
        proof {
            reveal_strlit("0");
            assert(r@ =~= zero_chars(k + 1));
        }
        k += 1;
    }
    r.append(digits.as_str());
    proof {
        assert(r@ =~= pad_str(n as nat, width as int));
    }
    r
}

/// Two string slices hold the same characters.
pub fn str_eq(a: &str, b: &str) -> (r: bool)
    ensures
        r == (a@ == b@),
{
    let alen = a.unicode_len();
    let blen = b.unicode_len();
    if alen != blen {
        proof {
            assert(a@ != b@);
        }
        return false;
    }
    let mut i: usize = 0;
    while i < alen
        invariant
            alen == a@.len(),
            alen == b@.len(),
            i <= alen,
            forall|j: int| 0 <= j < i ==> a@[j] == b@[j],
        decreases alen - i,
    {
        if a.get_char(i) != b.get_char(i) {
            proof {
                assert(a@ != b@);
            }
            return false;
        }
        i += 1;
    }
    proof {
        assert(a@ =~= b@);
    }
    true
}

/// The characters of a string slice, as a vector.
pub fn string_chars(s: &str) -> (r: Vec<char>)
    ensures
        r@ == s@,
{
    let len = s.unicode_len();
    let mut r: Vec<char> = Vec::new();
    let mut i: usize = 0;
    while i < len
        invariant
            len == s@.len(),
            i <= len,
            r@ =~= s@.subrange(0, i as int),
        decreases len - i,
    {
        r.push(s.get_char(i));
        i += 1;
    }
    proof {
        assert(r@ =~= s@);
    }
    r
}

/// The position of the first occurrence of a character, if any.
pub open spec fn find_char_spec(s: Seq<char>, c: char) -> Option<int> {
    if exists|i: int| 0 <= i < s.len() && s[i] == c {
        Some(choose|i: int| 0 <= i < s.len() && s[i] == c && forall|j: int| 0 <= j < i ==> s[j] != c)
    } else {
        None
    }
}

/// The position of the last occurrence of a character, if any.
pub open spec fn rfind_char_spec(s: Seq<char>, c: char) -> Option<int> {
    if exists|i: int| 0 <= i < s.len() && s[i] == c {
        Some(
            choose|i: int|
                0 <= i < s.len() && s[i] == c && forall|j: int| i < j < s.len() ==> s[j] != c,
        )
    } else {
        None
    }
}

/// A position satisfying the first-occurrence property is the one the
/// search finds.
pub proof fn lemma_find_char_unique(s: Seq<char>, c: char, i: int)
    requires
        0 <= i < s.len(),
        s[i] == c,
        forall|j: int| 0 <= j < i ==> s[j] != c,
    ensures
        find_char_spec(s, c) == Some(i),
{
    let k = choose|k: int|
        0 <= k < s.len() && s[k] == c && forall|j: int| 0 <= j < k ==> s[j] != c;
    assert(exists|k: int|
        0 <= k < s.len() && s[k] == c && forall|j: int| 0 <= j < k ==> s[j] != c) by {
        assert(0 <= i && i < s.len() && s[i] == c);
    }
    if k < i {
        assert(s[k] != c);
    } else if i < k {
        assert(s[i] != c);
    }
}

/// A position satisfying the last-occurrence property is the one the
/// backwards search finds.
pub proof fn lemma_rfind_char_unique(s: Seq<char>, c: char, i: int)
    requires
        0 <= i < s.len(),
        s[i] == c,
        forall|j: int| i < j < s.len() ==> s[j] != c,
    ensures
        rfind_char_spec(s, c) == Some(i),
{
    let k = choose|k: int|
        0 <= k < s.len() && s[k] == c && forall|j: int| k < j < s.len() ==> s[j] != c;
    assert(exists|k: int|
        0 <= k < s.len() && s[k] == c && forall|j: int| k < j < s.len() ==> s[j] != c) by {
        assert(0 <= i && i < s.len() && s[i] == c);
    }
    if k < i {
        assert(s[i] != c);
    } else if i < k {
        assert(s[k] != c);
    }
}

/// The position of the first occurrence of a character in a string slice.
pub fn find_char(s: &str, c: char) -> (r: Option<usize>)
    ensures
        match r {
            Some(i) => 0 <= i < s@.len() && s@[i as int] == c && forall|j: int|
                0 <= j < i ==> s@[j] != c,
            None => forall|j: int| 0 <= j < s@.len() ==> s@[j] != c,
        },
{
    let len = s.unicode_len();
    let mut i: usize = 0;
    while i < len
        invariant
            len == s@.len(),
            i <= len,
            forall|j: int| 0 <= j < i ==> s@[j] != c,
        decreases len - i,
    {
        if s.get_char(i) == c {
            return Some(i);
        }
        i += 1;
    }
    None
}

/// The position of the last occurrence of a character in a string slice.
pub fn rfind_char(s: &str, c: char) -> (r: Option<usize>)
    ensures
        match r {
            Some(i) => 0 <= i < s@.len() && s@[i as int] == c && forall|j: int|
                i < j < s@.len() ==> s@[j] != c,
            None => forall|j: int| 0 <= j < s@.len() ==> s@[j] != c,
        },
{
    let len = s.unicode_len();
    let mut i: usize = len;
    while i > 0
        invariant
            len == s@.len(),
            i <= len,
            forall|j: int| i <= j < len ==> s@[j] != c,
        decreases i,
    {
        i -= 1;
        if s.get_char(i) == c {
            return Some(i);
        }
    }
    None
}

/// A needle occurs in the haystack starting at position `i`.
pub open spec fn occurs_at(hay: Seq<char>, needle: Seq<char>, i: int) -> bool {
    0 <= i && i + needle.len() <= hay.len() && hay.subrange(i, i + needle.len()) == needle
}

pub open spec fn contains_seq(hay: Seq<char>, needle: Seq<char>) -> bool {
    exists|i: int| occurs_at(hay, needle, i)
}

/// Whether the needle occurs at the given position of the haystack.
fn occurs_at_exec(hay: &str, needle: &str, i: usize) -> (r: bool)
    requires
        i + needle@.len() <= hay@.len(),
    ensures
        r == occurs_at(hay@, needle@, i as int),
{
    let nlen = needle.unicode_len();
    let hlen = hay.unicode_len();
    let mut k: usize = 0;
    while k < nlen
        invariant
            nlen == needle@.len(),
            hlen == hay@.len(),
            i + nlen <= hay@.len(),
            k <= nlen,
            forall|j: int| 0 <= j < k ==> hay@[i + j] == needle@[j],
        decreases nlen - k,
    {
        if hay.get_char(i + k) != needle.get_char(k) {
            proof {
                assert(hay@.subrange(i as int, i + needle@.len())[k as int] != needle@[k as int]);
            }
            return false;
        }
        k += 1;
    }
    proof {
        assert(hay@.subrange(i as int, i + needle@.len()) =~= needle@);
    }
    true
}

/// The position of the first occurrence of a needle, if any.
pub fn find_sub(hay: &str, needle: &str) -> (r: Option<usize>)
    ensures
        match r {
            Some(i) => occurs_at(hay@, needle@, i as int) && forall|j: int|
                0 <= j < i ==> !occurs_at(hay@, needle@, j),
            None => !contains_seq(hay@, needle@),
        },
{
    let hlen = hay.unicode_len();
    let nlen = needle.unicode_len();
    if nlen > hlen {
        return None;
    }
    if nlen == 0 {
        proof {
            assert(occurs_at(hay@, needle@, 0)) by {
                assert(hay@.subrange(0, 0) =~= needle@);
            }
        }
        return Some(0);
    }
    let mut i: usize = 0;
    while i <= hlen - nlen
        invariant
            hlen == hay@.len(),
            nlen == needle@.len(),
            1 <= nlen <= hlen,
            i <= hlen - nlen + 1,
            forall|j: int| 0 <= j < i ==> !occurs_at(hay@, needle@, j),
        decreases hlen - i,
    {
        if occurs_at_exec(hay, needle, i) {
            return Some(i);
        }
        i += 1;
    }
    None
}

/// The characters stripped by trimming: the four ASCII whitespace forms.
pub open spec fn is_trim_ws(c: char) -> bool {
    c == ' ' || c == '\t' || c == '\n' || c == '\r'
}

/// A string without its leading whitespace.
pub open spec fn trim_start_spec(s: Seq<char>) -> Seq<char>
    decreases s.len(),
{
    if s.len() > 0 && is_trim_ws(s[0]) {
        trim_start_spec(s.drop_first())
    } else {
        s
    }
}

/// A string without its trailing whitespace.
pub open spec fn trim_end_spec(s: Seq<char>) -> Seq<char>
    decreases s.len(),
{
    if s.len() > 0 && is_trim_ws(s.last()) {
        trim_end_spec(s.drop_last())
    } else {
        s
    }
}

/// A string without its leading and trailing whitespace.
pub open spec fn trim_spec(s: Seq<char>) -> Seq<char> {
    trim_end_spec(trim_start_spec(s))
}

/// Whether the character at a position is trim whitespace.
fn ws_at(s: &str, i: usize) -> (r: bool)
    requires
        i < s@.len(),
    ensures
        r == is_trim_ws(s@[i as int]),
{
    let c = s.get_char(i);
    c == ' ' || c == '\t' || c == '\n' || c == '\r'
}

/// Trims leading and trailing whitespace.
pub fn trim(s: &str) -> (r: String)
    ensures
        r@ == trim_spec(s@),
{
    let len = s.unicode_len();
    let mut a: usize = 0;
    proof {
        assert(s@.skip(0) =~= s@);
    }
    while a < len && ws_at(s, a)
        invariant
            len == s@.len(),
            a <= len,
            trim_start_spec(s@) == trim_start_spec(s@.skip(a as int)),
        decreases len - a,
    {
        proof {
            assert(s@.skip(a as int)[0] == s@[a as int]);
            assert(s@.skip(a as int).drop_first() =~= s@.skip(a as int + 1));
        }
        a += 1;
    }
    proof {
        if a == len {
            assert(s@.skip(a as int) =~= Seq::<char>::empty());
        }
        assert(trim_start_spec(s@.skip(a as int)) == s@.skip(a as int)) by {
            if s@.skip(a as int).len() > 0 {
                assert(s@.skip(a as int)[0] == s@[a as int]);
            }
        }
    }
    let mut b: usize = len;
    while b > a && ws_at(s, b - 1)
        invariant
            len == s@.len(),
            a <= b <= len,
            trim_start_spec(s@) == s@.skip(a as int),
            trim_end_spec(s@.skip(a as int)) == trim_end_spec(
                s@.subrange(a as int, b as int),
            ),
        decreases b,
    {
        proof {
            assert(s@.subrange(a as int, b as int).last() == s@[b - 1]);
            assert(s@.subrange(a as int, b as int).drop_last() =~= s@.subrange(
                a as int,
                b - 1,
            ));
        }
        b -= 1;
    }
    let r = s.substring_char(a, b).to_owned();
    proof {
        let mid = s@.subrange(a as int, b as int);
        if b == a {
            assert(mid =~= Seq::<char>::empty());
        }
        assert(trim_end_spec(mid) == mid) by {
            if mid.len() > 0 {
                assert(mid.last() == s@[b - 1]);
                assert(b > a);
            }
        }
    }
    r
}

/// A string without any trailing copies of a nonempty suffix.
pub open spec fn strip_suffix_all_spec(s: Seq<char>, suffix: Seq<char>) -> Seq<char>
    recommends
        suffix.len() >= 1,
    decreases s.len(),
{
    if suffix.len() >= 1 && s.len() >= suffix.len() && s.subrange(
        s.len() - suffix.len(),
        s.len() as int,
    ) == suffix {
        strip_suffix_all_spec(s.subrange(0, s.len() - suffix.len()), suffix)
    } else {
        s
    }
}

/// Removes every trailing copy of a suffix.
pub fn strip_suffix_all(s: &str, suffix: &str) -> (r: String)
    requires
        suffix@.len() >= 1,
    ensures
        r@ == strip_suffix_all_spec(s@, suffix@),
    decreases s@.len(),
{
    let len = s.unicode_len();
    let slen = suffix.unicode_len();
    if len >= slen && occurs_at_exec(s, suffix, len - slen) {
        let head = s.substring_char(0, len - slen);
        proof {
            assert(s@.subrange(s@.len() - suffix@.len(), s@.len() as int) =~= s@.subrange(
                (len - slen) as int,
                (len - slen) as int + suffix@.len(),
            ));
        }
        strip_suffix_all(head, suffix)
    } else {
        proof {
            if len >= slen {
                assert(s@.subrange(s@.len() - suffix@.len(), s@.len() as int) =~= s@.subrange(
                    (len - slen) as int,
                    (len - slen) as int + suffix@.len(),
                ));
            }
        }
        s.to_owned()
    }
}

/// A string with every occurrence of one character removed.
pub open spec fn remove_char_spec(s: Seq<char>, c: char) -> Seq<char>
    decreases s.len(),
{
    if s.len() == 0 {
        Seq::empty()
    } else if s.last() == c {
        remove_char_spec(s.drop_last(), c)
    } else {
        remove_char_spec(s.drop_last(), c).push(s.last())
    }
}

/// Appending characters other than the removed one passes them through.
proof fn lemma_remove_char_clean(s1: Seq<char>, s2: Seq<char>, c: char)
    requires
        forall|i: int| 0 <= i < s2.len() ==> s2[i] != c,
    ensures
        remove_char_spec(s1 + s2, c) == remove_char_spec(s1, c) + s2,
    decreases s2.len(),
{
    if s2.len() == 0 {
        assert(s1 + s2 =~= s1);
        assert(remove_char_spec(s1, c) + s2 =~= remove_char_spec(s1, c));
    } else {
        lemma_remove_char_clean(s1, s2.drop_last(), c);
        assert((s1 + s2).drop_last() =~= s1 + s2.drop_last());
        assert((s1 + s2).last() == s2.last());
        assert(remove_char_spec(s1, c) + s2 =~= (remove_char_spec(s1, c)
            + s2.drop_last()).push(s2.last()));
    }
}

/// Removes every occurrence of a character.
pub fn remove_char(s: &str, c: char) -> (r: String)
    ensures
        r@ == remove_char_spec(s@, c),
{
    let len = s.unicode_len();
    let mut r = String::new();
    let mut start: usize = 0;
    let mut i: usize = 0;
    proof {
        assert(s@.take(0) =~= Seq::<char>::empty());
    }
    while i < len
        invariant
            len == s@.len(),
            start <= i <= len,
            r@ == remove_char_spec(s@.take(start as int), c),
            forall|j: int| start <= j < i ==> s@[j] != c,
        decreases len - i,
    {
        if s.get_char(i) == c {
            r.append(s.substring_char(start, i));
            proof {
                lemma_remove_char_clean(
                    s@.take(start as int),
                    s@.subrange(start as int, i as int),
                    c,
                );
                assert(s@.take(start as int) + s@.subrange(start as int, i as int) =~= s@.take(
                    i as int,
                ));
                assert(s@.take(i as int + 1).drop_last() =~= s@.take(i as int));
                assert(s@.take(i as int + 1).last() == s@[i as int]);
            }
            start = i + 1;
        }
        i += 1;
    }
    r.append(s.substring_char(start, len));
    proof {
        lemma_remove_char_clean(s@.take(start as int), s@.subrange(start as int, len as int), c);
        assert(s@.take(start as int) + s@.subrange(start as int, len as int) =~= s@);
    }
    r
}

/// The positions where a separator first occurs, splitting repeatedly: a
/// nonempty separator cuts the string into the pieces between its
/// occurrences.
pub open spec fn split_all_spec(s: Seq<char>, sep: Seq<char>) -> Seq<Seq<char>>
    recommends
        sep.len() >= 1,
    decreases s.len(),
{
    if sep.len() == 0 {
        seq![s]
    } else if exists|i: int| occurs_at(s, sep, i) {
        let i = first_occurrence(s, sep);
        if 0 <= i && i + sep.len() <= s.len() && s.len() - i - sep.len() < s.len() {
            seq![s.subrange(0, i)] + split_all_spec(
                s.subrange(i + sep.len(), s.len() as int),
                sep,
            )
        } else {
            seq![s]
        }
    } else {
        seq![s]
    }
}

/// The first position where a needle occurs.
pub open spec fn first_occurrence(s: Seq<char>, sep: Seq<char>) -> int {
    choose|i: int|
        occurs_at(s, sep, i) && forall|j: int| 0 <= j < i ==> !occurs_at(s, sep, j)
}

/// A split always yields at least one piece.
pub proof fn lemma_split_all_len(s: Seq<char>, sep: Seq<char>)
    ensures
        split_all_spec(s, sep).len() >= 1,
    decreases s.len(),
{
    if sep.len() >= 1 && exists|i: int| occurs_at(s, sep, i) {
        let i = first_occurrence(s, sep);
        if 0 <= i && i + sep.len() <= s.len() && s.len() - i - sep.len() < s.len() {
            lemma_split_all_len(s.subrange(i + sep.len(), s.len() as int), sep);
        }
    }
}

/// Splits at every occurrence of a nonempty separator.
pub fn split_all(s: &str, sep: &str) -> (r: Vec<String>)
    requires
        sep@.len() >= 1,
    ensures
        r@.map_values(|p: String| p@) == split_all_spec(s@, sep@),
    decreases s@.len(),
{
    match find_sub(s, sep) {
        None => {
            let mut r: Vec<String> = Vec::new();
            r.push(s.to_owned());
            proof {
                assert(!exists|i: int| occurs_at(s@, sep@, i));
                assert(r@.map_values(|p: String| p@) =~= seq![s@]);
            }
            r
        },
        Some(i) => {
            proof {
                let j = first_occurrence(s@, sep@);
                assert(occurs_at(s@, sep@, j) && forall|k: int|
                    0 <= k < j ==> !occurs_at(s@, sep@, k)) by {
                    assert(occurs_at(s@, sep@, i as int) && forall|k: int|
                        0 <= k < i ==> !occurs_at(s@, sep@, k));
                }
                if j < i as int {
                    assert(!occurs_at(s@, sep@, j));
                } else if (i as int) < j {
                    assert(!occurs_at(s@, sep@, i as int));
                }
                assert(j == i as int);
            }
            let head = s.substring_char(0, i).to_owned();
            let slen = sep.unicode_len();
            let len = s.unicode_len();
            let tail = s.substring_char(i + slen, len);
            let mut r = split_all(tail, sep);
            r.insert(0, head);
            proof {
                let f = |p: String| p@;
                let spec_rest = split_all_spec(s@.subrange(i + sep@.len(), s@.len() as int), sep@);
                assert(r@.map_values(f) =~= seq![s@.subrange(0, i as int)] + spec_rest) by {
                    assert(r@.map_values(f).len() == 1 + spec_rest.len());
                    assert(r@.map_values(f)[0] == s@.subrange(0, i as int));
                    assert(forall|j: int|
                        0 <= j < spec_rest.len() ==> r@.map_values(f)[j + 1] == #[trigger] spec_rest[j]);
                }
                assert(seq![s@.subrange(0, i as int)] + spec_rest == split_all_spec(s@, sep@));
            }
            r
        },
    }
}

/// Whether the haystack contains the needle anywhere.
pub fn contains_sub(hay: &str, needle: &str) -> (r: bool)
    ensures
        r == contains_seq(hay@, needle@),
{
    match find_sub(hay, needle) {
        Some(_) => true,
        None => false,
    }
}

} // verus!
