use vstd::prelude::*;
use vstd::string::StrSliceExecFns;
use crate::error::Error;

verus! {

/// Relies on `String::from_utf8`: it succeeds exactly on valid UTF-8 input
/// and returns the string of the characters those bytes encode.
#[verifier::external_body]
pub fn utf8_to_string(bytes: Vec<u8>) -> (r: Result<String, Error>)
    ensures
        match r {
            Ok(s) => vstd::utf8::valid_utf8(bytes@) && s@ == vstd::utf8::decode_utf8(bytes@),
            Err(e) => !vstd::utf8::valid_utf8(bytes@) && e == Error::Decode,
        },
{
    match String::from_utf8(bytes) {
        Ok(s) => Ok(s),
        Err(_) => Err(Error::Decode),
    }
}

/// Relies on `String`'s `FromIterator<char>` implementation: collecting
/// characters builds the string of exactly those characters, in order.
#[verifier::external_body]
pub fn chars_to_string(chars: &Vec<char>) -> (r: String)
    ensures
        r@ == chars@,
{
    chars.iter().collect()
}

/// Whether `c` is one of the white-space characters this library treats as
/// separators: space, tab, newline and carriage return.
pub open spec fn is_space(c: char) -> bool {
    c == ' ' || c == '\t' || c == '\n' || c == '\r'
}

/// Tab and newline characters are read as plain spaces.
pub open spec fn norm_char(c: char) -> char {
    if c == '\n' || c == '\t' {
        ' '
    } else {
        c
    }
}

/// `s` with every tab and newline replaced by a space.
pub open spec fn normalize(s: Seq<char>) -> Seq<char> {
    s.map_values(|c: char| norm_char(c))
}

/// Whether `c` is removed by trimming: a space or a carriage return.
pub open spec fn is_trim(c: char) -> bool {
    c == ' ' || c == '\r'
}

/// `s` without leading and trailing trim characters.
pub open spec fn trim_spec(s: Seq<char>) -> Seq<char>
    decreases s.len(),
{
    if s.len() == 0 {
        s
    } else if is_trim(s[0]) {
        trim_spec(s.drop_first())
    } else if is_trim(s.last()) {
        trim_spec(s.drop_last())
    } else {
        s
    }
}

/// The lower-case form of `c` when `c` is an ASCII capital letter,
/// otherwise `c` itself.
pub open spec fn lower_char(c: char) -> char {
    if 'A' <= c && c <= 'Z' {
        (((c as u32) + 32) as u8) as char
    } else {
        c
    }
}

/// `s` with every ASCII capital letter lowered.
pub open spec fn lower_spec(s: Seq<char>) -> Seq<char> {
    s.map_values(|c: char| lower_char(c))
}

/// Whether `a` and `b` are equal up to ASCII case.
pub open spec fn eq_ignore_case(a: Seq<char>, b: Seq<char>) -> bool {
    lower_spec(a) == lower_spec(b)
}

/// The index of the first occurrence of `c` in `s`, or `s.len()` when `c`
/// does not occur.
pub open spec fn index_of(s: Seq<char>, c: char) -> int
    decreases s.len(),
{
    if s.len() == 0 {
        0
    } else if s[0] == c {
        0
    } else {
        1 + index_of(s.drop_first(), c)
    }
}

/// The index of the last occurrence of `c` in `s`, or `-1` when `c` does
/// not occur.
pub open spec fn last_index_of(s: Seq<char>, c: char) -> int
    decreases s.len(),
{
    if s.len() == 0 {
        -1
    } else if s.last() == c {
        s.len() - 1
    } else {
        last_index_of(s.drop_last(), c)
    }
}

/// `s` split on every occurrence of `c`: splitting the empty sequence
/// yields one empty piece, and adjacent separators yield empty pieces.
pub open spec fn split_char(s: Seq<char>, c: char) -> Seq<Seq<char>>
    decreases s.len(),
    via split_char_decreases
{
    let i = index_of(s, c);
    if i == s.len() {
        seq![s]
    } else {
        seq![s.take(i)] + split_char(s.skip(i + 1), c)
    }
}

#[via_fn]
proof fn split_char_decreases(s: Seq<char>, c: char) {
    lemma_index_of_range(s, c);
}

/// `index_of` stays within `0 ..= s.len()`, and points at `c` when `c`
/// occurs.
pub proof fn lemma_index_of_range(s: Seq<char>, c: char)
    ensures
        0 <= index_of(s, c) <= s.len(),
        index_of(s, c) < s.len() ==> s[index_of(s, c)] == c,
        forall|j: int| 0 <= j < index_of(s, c) ==> s[j] != c,
    decreases s.len(),
{
    if s.len() > 0 && s[0] != c {
        lemma_index_of_range(s.drop_first(), c);
        assert forall|j: int| 0 <= j < index_of(s, c) implies s[j] != c by {
            if j > 0 {
                assert(s.drop_first()[j - 1] == s[j]);
            }
        }
    }
}

/// `last_index_of` stays within `-1 ..< s.len()`, and points at `c` when
/// `c` occurs.
pub proof fn lemma_last_index_of_range(s: Seq<char>, c: char)
    ensures
        -1 <= last_index_of(s, c) < s.len(),
        last_index_of(s, c) >= 0 ==> s[last_index_of(s, c)] == c,
        forall|j: int| last_index_of(s, c) < j < s.len() ==> s[j] != c,
    decreases s.len(),
{
    if s.len() > 0 && s.last() != c {
        lemma_last_index_of_range(s.drop_last(), c);
        assert forall|j: int| last_index_of(s, c) < j < s.len() implies s[j] != c by {
            if j < s.len() - 1 {
                assert(s.drop_last()[j] == s[j]);
            }
        }
    }
}

/// Whether `pat` occurs in `s` as a contiguous subsequence.
pub open spec fn contains_seq(s: Seq<char>, pat: Seq<char>) -> bool {
    exists|i: int|
        0 <= i <= s.len() - pat.len() && #[trigger] s.subrange(i, i + pat.len()) == pat
}

/// `s` is at least `t` in lexicographic order by character code.
pub open spec fn lex_ge(s: Seq<char>, t: Seq<char>) -> bool
    decreases s.len() + t.len(),
{
    if t.len() == 0 {
        true
    } else if s.len() == 0 {
        false
    } else if s[0] != t[0] {
        s[0] > t[0]
    } else {
        lex_ge(s.drop_first(), t.drop_first())
    }
}

/// The characters of `s`, as a vector.
pub fn string_chars(s: &str) -> (r: Vec<char>)
    ensures
        r@ == s@,
{
    let n = s.unicode_len();
    let mut v: Vec<char> = Vec::new();
    let mut i: usize = 0;
    while i < n
        invariant
            i <= n,
            n == s@.len(),
            v@ == s@.take(i as int),
        decreases n - i,
    {
        v.push(s.get_char(i));
        proof {
            assert(v@ =~= s@.take(i + 1));
        }
        i = i + 1;
    }
    proof {
        assert(v@ =~= s@);
    }
    v
}

/// Whether `c` is one of the separator white-space characters.
pub fn is_space_exec(c: char) -> (r: bool)
    ensures
        r == is_space(c),
{
    c == ' ' || c == '\t' || c == '\n' || c == '\r'
}

/// Whether trimming removes `c`.
pub fn is_trim_exec(c: char) -> (r: bool)
    ensures
        r == is_trim(c),
{
    c == ' ' || c == '\r'
}

/// The lower-case form of `c` when it is an ASCII capital letter.
pub fn lower_char_exec(c: char) -> (r: char)
    ensures
        r == lower_char(c),
{
    if 'A' <= c && c <= 'Z' {
        (((c as u32) + 32) as u8) as char
    } else {
        c
    }
}

/// `v` with every tab and newline replaced by a space.
pub fn normalize_chars(v: &Vec<char>) -> (r: Vec<char>)
    ensures
        r@ == normalize(v@),
{
    let mut out: Vec<char> = Vec::new();
    let mut i: usize = 0;
    let n = v.len();
    while i < n
        invariant
            i <= n,
            n == v@.len(),
            out@ == normalize(v@).take(i as int),
        decreases n - i,
    {
        let c = v[i];
        if c == '\n' || c == '\t' {
            out.push(' ');
        } else {
            out.push(c);
        }
        proof {
            assert(out@ =~= normalize(v@).take(i + 1));
        }
        i = i + 1;
    }
    proof {
        assert(out@ =~= normalize(v@));
    }
    out
}

/// `v` with every ASCII capital letter lowered.
pub fn lower_chars(v: &Vec<char>) -> (r: Vec<char>)
    ensures
        r@ == lower_spec(v@),
{
    let mut out: Vec<char> = Vec::new();
    let mut i: usize = 0;
    let n = v.len();
    while i < n
        invariant
            i <= n,
            n == v@.len(),
            out@ == lower_spec(v@).take(i as int),
        decreases n - i,
    {
        out.push(lower_char_exec(v[i]));
        proof {
            assert(out@ =~= lower_spec(v@).take(i + 1));
        }
        i = i + 1;
    }
    proof {
        assert(out@ =~= lower_spec(v@));
    }
    out
}

/// The piece of `v` between indices `a` and `b`.
pub fn subvec(v: &Vec<char>, a: usize, b: usize) -> (r: Vec<char>)
    requires
        a <= b <= v@.len(),
    ensures
        r@ == v@.subrange(a as int, b as int),
{
    let mut out: Vec<char> = Vec::new();
    let mut i: usize = a;
    while i < b
        invariant
            a <= i <= b <= v@.len(),
            out@ == v@.subrange(a as int, i as int),
        decreases b - i,
    {
        out.push(v[i]);
        proof {
            assert(out@ =~= v@.subrange(a as int, i + 1));
        }
        i = i + 1;
    }
    out
}

/// `v` without leading and trailing trim characters.
pub fn trim_chars(v: &Vec<char>) -> (r: Vec<char>)
    ensures
        r@ == trim_spec(v@),
{
    let mut a: usize = 0;
    let mut b: usize = v.len();
    proof {
        assert(v@.subrange(0, v@.len() as int) =~= v@);
    }
    while a < b && is_trim_exec(v[a])
        invariant
            0 <= a <= b <= v@.len(),
            trim_spec(v@) == trim_spec(v@.subrange(a as int, b as int)),
        decreases b - a,
    {
        proof {
            assert(v@.subrange(a as int, b as int).drop_first() =~= v@.subrange(a + 1, b as int));
        }
        a = a + 1;
    }
    while a < b && is_trim_exec(v[b - 1])
        invariant
            0 <= a <= b <= v@.len(),
            trim_spec(v@) == trim_spec(v@.subrange(a as int, b as int)),
            a < b ==> !is_trim(v@[a as int]),
        decreases b - a,
    {
        proof {
            assert(v@.subrange(a as int, b as int).drop_last() =~= v@.subrange(
                a as int,
                b - 1,
            ));
        }
        b = b - 1;
    }
    subvec(v, a, b)
}

/// Whether `a` and `b` are equal up to ASCII case.
pub fn eq_ignore_case_exec(a: &Vec<char>, b: &Vec<char>) -> (r: bool)
    ensures
        r == eq_ignore_case(a@, b@),
{
    let n = a.len();
    if n != b.len() {
        proof {
            assert(lower_spec(a@).len() != lower_spec(b@).len());
        }
        return false;
    }
    let mut i: usize = 0;
    while i < n
        invariant
            i <= n,
            n == a@.len() && n == b@.len(),
            forall|j: int| 0 <= j < i ==> lower_spec(a@)[j] == lower_spec(b@)[j],
        decreases n - i,
    {
        if lower_char_exec(a[i]) != lower_char_exec(b[i]) {
            proof {
                assert(lower_spec(a@)[i as int] != lower_spec(b@)[i as int]);
            }
            return false;
        }
        i = i + 1;
    }
    proof {
        assert(lower_spec(a@) =~= lower_spec(b@));
    }
    true
}

/// The index of the first occurrence of `c` in `v`, or `v.len()` when `c`
/// does not occur.
pub fn index_of_exec(v: &Vec<char>, c: char) -> (r: usize)
    ensures
        r == index_of(v@, c),
{
    let n = v.len();
    let mut i: usize = 0;
    while i < n
        invariant
            i <= n,
            n == v@.len(),
            forall|j: int| 0 <= j < i ==> v@[j] != c,
        decreases n - i,
    {
        if v[i] == c {
            proof {
                lemma_index_of_is(v@, c, i as int);
            }
            return i;
        }
        i = i + 1;
    }
    proof {
        lemma_index_of_is(v@, c, n as int);
    }
    n
}

/// The index of the last occurrence of `c` in `v`, or `v.len()` when `c`
/// does not occur; the second component tells which.
pub fn last_index_of_exec(v: &Vec<char>, c: char) -> (r: (usize, bool))
    ensures
        r.1 <==> last_index_of(v@, c) >= 0,
        r.1 ==> r.0 == last_index_of(v@, c),
{
    let mut i: usize = v.len();
    while i > 0
        invariant
            i <= v@.len(),
            forall|j: int| i <= j < v@.len() ==> v@[j] != c,
        decreases i,
    {
        i = i - 1;
        if v[i] == c {
            proof {
                lemma_last_index_of_is(v@, c, i as int);
            }
            return (i, true);
        }
    }
    proof {
        lemma_last_index_of_is(v@, c, -1);
    }
    (0, false)
}

/// `index_of` equals `k` when no earlier character is `c` and either `k`
/// points at a `c` or `k` is the length.
pub proof fn lemma_index_of_is(s: Seq<char>, c: char, k: int)
    requires
        0 <= k <= s.len(),
        forall|j: int| 0 <= j < k ==> s[j] != c,
        k < s.len() ==> s[k] == c,
    ensures
        index_of(s, c) == k,
    decreases s.len(),
{
    if s.len() > 0 {
        if s[0] == c {
            assert(k == 0);
        } else {
            assert(k >= 1);
            lemma_index_of_is(s.drop_first(), c, k - 1);
        }
    }
}

/// `last_index_of` equals `k` when no later character is `c` and either
/// `k` points at a `c` or `k` is `-1`.
pub proof fn lemma_last_index_of_is(s: Seq<char>, c: char, k: int)
    requires
        -1 <= k < s.len(),
        forall|j: int| k < j < s.len() ==> s[j] != c,
        k >= 0 ==> s[k] == c,
    ensures
        last_index_of(s, c) == k,
    decreases s.len(),
{
    if s.len() > 0 {
        if s.last() == c {
            assert(k == s.len() - 1);
        } else {
            assert(k < s.len() - 1);
            lemma_last_index_of_is(s.drop_last(), c, k);
        }
    }
}

/// `v` split on every occurrence of `c`.
pub fn split_chars(v: &Vec<char>, c: char) -> (r: Vec<Vec<char>>)
    ensures
        r.deep_view() == split_char(v@, c),
{
    let n = v.len();
    let mut pieces: Vec<Vec<char>> = Vec::new();
    let mut start: usize = 0;
    let mut i: usize = 0;
    proof {
        assert(v@.skip(0) =~= v@);
        assert(pieces.deep_view() =~= Seq::<Seq<char>>::empty());
        assert(pieces.deep_view() + split_char(v@, c) =~= split_char(v@, c));
    }
    while i < n
        invariant
            start <= i <= n,
            n == v@.len(),
            split_char(v@, c) == pieces.deep_view() + split_char(v@.skip(start as int), c),
            forall|j: int| start <= j < i ==> v@[j] != c,
        decreases n - i,
    {
        if v[i] == c {
            let ghost prev = pieces.deep_view();
            proof {
                let suff = v@.skip(start as int);
                assert forall|j: int| 0 <= j < i - start implies suff[j] != c by {
                    assert(suff[j] == v@[start + j]);
                }
                assert(suff[i - start] == v@[i as int]);
                lemma_index_of_is(suff, c, i - start);
                assert(suff.take(i - start) =~= v@.subrange(start as int, i as int));
                assert(suff.skip(i - start + 1) =~= v@.skip(i + 1));
                assert((prev + (seq![v@.subrange(start as int, i as int)] + split_char(
                    v@.skip(i + 1),
                    c,
                ))) =~= ((prev.push(v@.subrange(start as int, i as int))) + split_char(
                    v@.skip(i + 1),
                    c,
                )));
            }
            let piece = subvec(v, start, i);
            pieces.push(piece);
            proof {
                assert(pieces.deep_view() =~~= prev.push(v@.subrange(start as int, i as int)));
            }
            start = i + 1;
        }
        i = i + 1;
    }
    let ghost prev = pieces.deep_view();
    proof {
        let suff = v@.skip(start as int);
        assert forall|j: int| 0 <= j < suff.len() implies suff[j] != c by {
            assert(suff[j] == v@[start + j]);
        }
        lemma_index_of_is(suff, c, suff.len() as int);
        assert(suff =~= v@.subrange(start as int, n as int));
    }
    let last = subvec(v, start, n);
    pieces.push(last);
    proof {
        assert(pieces.deep_view() =~~= prev.push(v@.subrange(start as int, n as int)));
        assert(prev + seq![v@.subrange(start as int, n as int)] =~= prev.push(
            v@.subrange(start as int, n as int),
        ));
    }
    pieces
}

/// Whether `pat` occurs in `s` as a contiguous subsequence.
pub fn contains_chars(s: &Vec<char>, pat: &Vec<char>) -> (r: bool)
    ensures
        r == contains_seq(s@, pat@),
{
    let slen = s.len();
    let plen = pat.len();
    if plen > slen {
        return false;
    }
    if plen == 0 {
        proof {
            assert(s@.subrange(0, 0 + pat@.len() as int) =~= pat@);
            assert(s@.subrange(0, 0 + pat@.len() as int) == pat@);
        }
        return true;
    }
    let mut i: usize = 0;
    while i <= slen - plen
        invariant
            plen == pat@.len(),
            slen == s@.len(),
            0 < plen <= slen,
            i <= slen - plen + 1,
            forall|j: int| 0 <= j < i ==> #[trigger] s@.subrange(j, j + pat@.len()) != pat@,
        decreases slen - plen - i + 1,
    {
        let mut k: usize = 0;
        let mut matched = true;
        while k < plen
            invariant
                plen == pat@.len(),
                slen == s@.len(),
                i + plen <= slen,
                k <= plen,
                matched ==> forall|m: int| 0 <= m < k ==> s@[i + m] == pat@[m],
                !matched ==> s@.subrange(i as int, i + pat@.len()) != pat@,
            decreases plen - k,
        {
            if s[i + k] != pat[k] {
                proof {
                    assert(s@.subrange(i as int, i + pat@.len())[k as int] == s@[i + k]);
                }
                matched = false;
                k = plen;
            } else {
                k = k + 1;
            }
        }
        if matched {
            proof {
                assert(s@.subrange(i as int, i + pat@.len()) =~= pat@);
            }
            return true;
        }
        i = i + 1;
    }
    proof {
        assert forall|j: int| 0 <= j <= s@.len() - pat@.len() implies #[trigger] s@.subrange(
            j,
            j + pat@.len(),
        ) != pat@ by {}
    }
    false
}

/// `s` is at least `t` in lexicographic order by character code.
pub fn lex_ge_exec(s: &Vec<char>, t: &Vec<char>) -> (r: bool)
    ensures
        r == lex_ge(s@, t@),
{
    let slen = s.len();
    let tlen = t.len();
    let mut i: usize = 0;
    proof {
        assert(s@.skip(0) =~= s@);
        assert(t@.skip(0) =~= t@);
    }
    while i < slen && i < tlen
        invariant
            slen == s@.len(),
            tlen == t@.len(),
            i <= slen && i <= tlen,
            lex_ge(s@, t@) == lex_ge(s@.skip(i as int), t@.skip(i as int)),
        decreases slen - i,
    {
        if s[i] != t[i] {
            proof {
                assert(s@.skip(i as int)[0] == s@[i as int]);
                assert(t@.skip(i as int)[0] == t@[i as int]);
            }
            return s[i] > t[i];
        }
        proof {
            assert(s@.skip(i as int)[0] == s@[i as int]);
            assert(t@.skip(i as int)[0] == t@[i as int]);
            assert(s@.skip(i as int).drop_first() =~= s@.skip(i + 1));
            assert(t@.skip(i as int).drop_first() =~= t@.skip(i + 1));
        }
        i = i + 1;
    }
    proof {
        assert(s@.skip(i as int).len() == slen - i);
        assert(t@.skip(i as int).len() == tlen - i);
    }
    i >= tlen
}

/// Whether `c` is an ASCII decimal digit.
pub open spec fn is_digit(c: char) -> bool {
    '0' <= c && c <= '9'
}

/// The numeric value of digit `c`.
pub open spec fn digit_val(c: char) -> nat {
    ((c as u32) - 48) as nat
}

/// Whether every character of `s` is a decimal digit.
pub open spec fn all_digits(s: Seq<char>) -> bool {
    forall|i: int| 0 <= i < s.len() ==> is_digit(#[trigger] s[i])
}

/// The value of the digit string `s`.
pub open spec fn digits_val(s: Seq<char>) -> nat
    decreases s.len(),
{
    if s.len() == 0 {
        0
    } else {
        digits_val(s.drop_last()) * 10 + digit_val(s.last())
    }
}

/// The signed 64-bit integer denoted by `s`: an optional sign, then one or
/// more decimal digits, the value within the range of the type.
pub open spec fn parse_i64_spec(s: Seq<char>) -> Option<int> {
    let neg = s.len() > 0 && s[0] == '-';
    let ds = if s.len() > 0 && (s[0] == '-' || s[0] == '+') {
        s.drop_first()
    } else {
        s
    };
    if ds.len() == 0 || !all_digits(ds) {
        None
    } else {
        let v = if neg {
            -(digits_val(ds) as int)
        } else {
            digits_val(ds) as int
        };
        if -0x8000000000000000 <= v <= 0x7fffffffffffffff {
            Some(v)
        } else {
            None
        }
    }
}

/// A digit string's value only grows as digits are appended.
proof fn lemma_digits_val_prefix(s: Seq<char>, k: int)
    requires
        0 <= k <= s.len(),
    ensures
        digits_val(s.take(k)) <= digits_val(s),
    decreases s.len(),
{
    if k < s.len() {
        assert(s.take(k) =~= s.drop_last().take(k));
        lemma_digits_val_prefix(s.drop_last(), k);
    } else {
        assert(s.take(k) =~= s);
    }
}

/// Parse `v` as a signed 64-bit decimal integer, as the standard library
/// does: an optional `+` or `-` sign, then one or more digits, rejecting
/// any other character and any value out of range.
pub fn parse_i64(v: &Vec<char>) -> (r: Option<i64>)
    ensures
        match r {
            Some(x) => parse_i64_spec(v@) == Some(x as int),
            None => parse_i64_spec(v@) is None,
        },
{
    let n = v.len();
    let mut start: usize = 0;
    let mut neg = false;
    if n > 0 && (v[0] == '-' || v[0] == '+') {
        neg = v[0] == '-';
        start = 1;
    }
    let ghost ds = if start == 1 {
        v@.drop_first()
    } else {
        v@
    };
    proof {
        assert(ds =~= v@.subrange(start as int, n as int));
    }
    if start == n {
        return None;
    }
    let mut acc: u64 = 0;
    let mut i: usize = start;
    while i < n
        invariant
            start <= i <= n,
            n == v@.len(),
            start == 0 || start == 1,
            start == 1 <==> (n > 0 && (v@[0] == '-' || v@[0] == '+')),
            neg <==> (n > 0 && v@[0] == '-'),
            ds == v@.subrange(start as int, n as int),
            ds == (if n > 0 && (v@[0] == '-' || v@[0] == '+') {
                v@.drop_first()
            } else {
                v@
            }),
            all_digits(ds.take(i - start)),
            acc == digits_val(ds.take(i - start)),
        decreases n - i,
    {
        let c = v[i];
        if c < '0' || c > '9' {
            proof {
                assert(ds[i - start] == v@[i as int]);
                assert(!is_digit(ds[i - start]));
                assert(!all_digits(ds));
            }
            return None;
        }
        let d = ((c as u32) - 48) as u64;
        let next = match acc.checked_mul(10) {
            Some(m) => m.checked_add(d),
            None => None,
        };
        proof {
            assert(ds.take(i - start + 1).drop_last() =~= ds.take(i - start));
            assert(ds.take(i - start + 1).last() == ds[i - start]);
            assert(ds[i - start] == v@[i as int]);
        }
        match next {
            Some(a) => {
                acc = a;
            },
            None => {
                // the value exceeds what a 64-bit integer can hold
                proof {
                    if all_digits(ds) {
                        lemma_digits_val_prefix(ds, i - start + 1);
                        assert(digits_val(ds) > 0x7fffffffffffffff + 1);
                    }
                }
                return None;
            },
        }
        i = i + 1;
    }
    proof {
        assert(ds.take(n - start) =~= ds);
    }
    if neg {
        if acc > 0x8000000000000000 {
            return None;
        }
        if acc == 0x8000000000000000 {
            return Some(i64::MIN);
        }
        Some(-(acc as i64))
    } else {
        if acc > 0x7fffffffffffffff {
            return None;
        }
        Some(acc as i64)
    }
}

/// The digit character of value `d`.
pub open spec fn digit_char(d: nat) -> char {
    ((48 + d) as u8) as char
}

/// The decimal digits of `n`, most significant first.
pub open spec fn dec_digits(n: nat) -> Seq<char>
    decreases n,
{
    if n < 10 {
        seq![digit_char(n)]
    } else {
        dec_digits(n / 10) + seq![digit_char(n % 10)]
    }
}

/// The decimal text of the integer `v`, with a leading minus sign when it
/// is negative.
pub open spec fn fmt_int(v: int) -> Seq<char> {
    if v < 0 {
        seq!['-'] + dec_digits((-v) as nat)
    } else {
        dec_digits(v as nat)
    }
}

/// The decimal digits of `n`, as characters.
pub fn fmt_u64_chars(n: u64) -> (r: Vec<char>)
    ensures
        r@ == dec_digits(n as nat),
    decreases n,
{
    if n < 10 {
        let c = ((48 + n) as u8) as char;
        let mut out: Vec<char> = Vec::new();
        out.push(c);
        proof {
            assert(out@ =~= dec_digits(n as nat));
        }
        out
    } else {
        let mut out = fmt_u64_chars(n / 10);
        let c = ((48 + (n % 10)) as u8) as char;
        out.push(c);
        proof {
            assert(out@ =~= dec_digits(n as nat));
        }
        out
    }
}

/// The decimal text of `v`.
pub fn fmt_i64_string(v: i64) -> (r: String)
    ensures
        r@ == fmt_int(v as int),
{
    if v < 0 {
        let mag: u64 = if v == i64::MIN {
            0x8000000000000000
        } else {
            (-v) as u64
        };
        let mut out: Vec<char> = Vec::new();
        out.push('-');
        let mut digits = fmt_u64_chars(mag);
        out.append(&mut digits);
        proof {
            assert(out@ =~= fmt_int(v as int));
        }
        chars_to_string(&out)
    } else {
        let digits = fmt_u64_chars(v as u64);
        chars_to_string(&digits)
    }
}

/// The decimal text of `n`.
pub fn fmt_u64_string(n: u64) -> (r: String)
    ensures
        r@ == dec_digits(n as nat),
{
    let digits = fmt_u64_chars(n);
    chars_to_string(&digits)
}

} // verus!
