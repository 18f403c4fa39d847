//! String utilities shared by the whole library: conversion between `String`
//! and `Vec<char>`, verified lexicographic comparison, Unicode classification
//! behind trusted wrappers, and whitespace collapsing.

use vstd::prelude::*;

verus! {

/// The result of `str::to_lowercase` on a sequence of characters.
/// Unicode lowercasing takes pages to state, so the library only names it;
/// it depends on the characters alone.
pub uninterp spec fn lower_of(s: Seq<char>) -> Seq<char>;

/// Whether `char::is_alphanumeric` holds of a character.
pub uninterp spec fn is_alphanum(c: char) -> bool;

/// Whether `char::is_whitespace` holds of a character.
pub uninterp spec fn is_space(c: char) -> bool;

/// Relies on str::to_lowercase: the result depends on the characters alone,
/// and an empty string stays empty.
#[verifier::external_body]
pub fn lowercase(s: &str) -> (r: String)
    ensures
        r@ == lower_of(s@),
        s@.len() == 0 ==> r@.len() == 0,
{
    s.to_lowercase()
}

/// Relies on char::is_alphanumeric: the result depends on the character
/// alone; ASCII letters and digits are alphanumeric.
#[verifier::external_body]
pub fn is_alphanumeric_char(c: char) -> (r: bool)
    ensures
        r == is_alphanum(c),
        ('a' <= c <= 'z' || 'A' <= c <= 'Z' || '0' <= c <= '9') ==> r,
{
    c.is_alphanumeric()
}

/// Relies on char::is_whitespace: the result depends on the character alone;
/// the space character is whitespace.
#[verifier::external_body]
pub fn is_whitespace_char(c: char) -> (r: bool)
    ensures
        r == is_space(c),
        c == ' ' ==> r,
{
    c.is_whitespace()
}

/// Relies on String::push: appends the given character to the end.
#[verifier::external_body]
pub fn push_char(s: &mut String, c: char)
    ensures
        final(s)@ == old(s)@ + seq![c],
{
    s.push(c)
}

/// The characters of a string, as a vector.
pub fn chars_vec(s: &str) -> (r: Vec<char>)
    ensures
        r@ == s@,
{
    let n = s.unicode_len();
    let mut r: Vec<char> = Vec::new();
    let mut i: usize = 0;
    while i < n
        invariant
            i <= n,
            n == s@.len(),
            r@ == s@.take(i as int),
        decreases n - i,
    {
        let c = s.get_char(i);
        r.push(c);
        i = i + 1;
        assert(r@ =~= s@.take(i as int));
    }
    assert(r@ =~= s@);
    r
}

/// A string holding exactly the given characters.
pub fn string_from_chars(v: &Vec<char>) -> (r: String)
    ensures
        r@ == v@,
{
    let mut r = String::new();
    let mut i: usize = 0;
    while i < v.len()
        invariant
            i <= v@.len(),
            r@ == v@.take(i as int),
        decreases v@.len() - i,
    {
        push_char(&mut r, v[i]);
        i = i + 1;
        assert(r@ =~= v@.take(i as int));
    }
    assert(r@ =~= v@);
    r
}

/// Three-way lexicographic comparison of character sequences, by Unicode
/// scalar value; 0 exactly when the sequences are equal.
pub open spec fn lex_cmp(a: Seq<char>, b: Seq<char>) -> int
    decreases a.len(),
{
    if a.len() == 0 && b.len() == 0 {
        0
    } else if a.len() == 0 {
        -1
    } else if b.len() == 0 {
        1
    } else if (a[0] as u32) < (b[0] as u32) {
        -1
    } else if (a[0] as u32) > (b[0] as u32) {
        1
    } else {
        lex_cmp(a.drop_first(), b.drop_first())
    }
}

proof fn lemma_char_u32_inj(x: char, y: char)
    requires
        x as u32 == y as u32,
    ensures
        x == y,
{
    vstd::utf8::char_u32_cast(x, x as u32);
    vstd::utf8::char_u32_cast(y, y as u32);
}

pub proof fn lemma_lex_cmp_range(a: Seq<char>, b: Seq<char>)
    ensures
        -1 <= lex_cmp(a, b) <= 1,
    decreases a.len(),
{
    if a.len() > 0 && b.len() > 0 && a[0] as u32 == b[0] as u32 {
        lemma_lex_cmp_range(a.drop_first(), b.drop_first());
    }
}

pub proof fn lemma_lex_cmp_antisym(a: Seq<char>, b: Seq<char>)
    ensures
        lex_cmp(a, b) == -lex_cmp(b, a),
    decreases a.len(),
{
    if a.len() > 0 && b.len() > 0 && a[0] as u32 == b[0] as u32 {
        lemma_lex_cmp_antisym(a.drop_first(), b.drop_first());
    }
}

pub proof fn lemma_lex_cmp_eq(a: Seq<char>, b: Seq<char>)
    ensures
        lex_cmp(a, b) == 0 <==> a == b,
    decreases a.len(),
{
    if a.len() > 0 && b.len() > 0 && a[0] as u32 == b[0] as u32 {
        lemma_char_u32_inj(a[0], b[0]);
        lemma_lex_cmp_eq(a.drop_first(), b.drop_first());
        if lex_cmp(a, b) == 0 {
            assert(a =~= seq![a[0]] + a.drop_first());
            assert(b =~= seq![b[0]] + b.drop_first());
        }
        if a == b {
            assert(a.drop_first() =~= b.drop_first());
        }
    } else if a.len() == 0 && b.len() == 0 {
        assert(a =~= b);
    }
}

pub proof fn lemma_lex_cmp_trans(a: Seq<char>, b: Seq<char>, c: Seq<char>)
    requires
        lex_cmp(a, b) <= 0,
        lex_cmp(b, c) <= 0,
    ensures
        lex_cmp(a, c) <= 0,
    decreases a.len() + b.len() + c.len(),
{
    if a.len() > 0 && b.len() > 0 && c.len() > 0 {
        if a[0] as u32 == b[0] as u32 && b[0] as u32 == c[0] as u32 {
            lemma_lex_cmp_trans(a.drop_first(), b.drop_first(), c.drop_first());
        }
    }
}

/// Strictly below combined with at-most gives strictly below.
pub proof fn lemma_lex_cmp_trans_lt(a: Seq<char>, b: Seq<char>, c: Seq<char>)
    requires
        lex_cmp(a, b) < 0,
        lex_cmp(b, c) <= 0,
    ensures
        lex_cmp(a, c) < 0,
{
    lemma_lex_cmp_trans(a, b, c);
    if lex_cmp(a, c) == 0 {
        lemma_lex_cmp_eq(a, c);
        lemma_lex_cmp_antisym(b, c);
    }
}

/// At-most combined with strictly below gives strictly below.
pub proof fn lemma_lex_cmp_le_lt(a: Seq<char>, b: Seq<char>, c: Seq<char>)
    requires
        lex_cmp(a, b) <= 0,
        lex_cmp(b, c) < 0,
    ensures
        lex_cmp(a, c) < 0,
{
    lemma_lex_cmp_trans(a, b, c);
    if lex_cmp(a, c) == 0 {
        lemma_lex_cmp_eq(a, c);
        lemma_lex_cmp_antisym(a, b);
    }
}

/// If the first `i` characters agree, comparison is decided by the rest.
pub proof fn lemma_lex_cmp_skip(a: Seq<char>, b: Seq<char>, i: int)
    requires
        0 <= i <= a.len(),
        i <= b.len(),
        forall|j: int| 0 <= j < i ==> a[j] == b[j],
    ensures
        lex_cmp(a, b) == lex_cmp(a.skip(i), b.skip(i)),
    decreases i,
{
    if i > 0 {
        lemma_lex_cmp_skip(a.drop_first(), b.drop_first(), i - 1);
        assert(a.drop_first().skip(i - 1) =~= a.skip(i));
        assert(b.drop_first().skip(i - 1) =~= b.skip(i));
    } else {
        assert(a.skip(0) =~= a);
        assert(b.skip(0) =~= b);
    }
}

/// Three-way lexicographic comparison of two character vectors.
pub fn lex_cmp_chars(a: &Vec<char>, b: &Vec<char>) -> (r: i8)
    ensures
        r as int == lex_cmp(a@, b@),
{
    let na = a.len();
    let nb = b.len();
    let n = if na < nb {
        na
    } else {
        nb
    };
    let mut i: usize = 0;
    while i < n
        invariant
            i <= n,
            n == if a@.len() < b@.len() {
                a@.len()
            } else {
                b@.len()
            },
            forall|j: int| 0 <= j < i ==> a@[j] == b@[j],
        decreases n - i,
    {
        let ca = a[i];
        let cb = b[i];
        if (ca as u32) < (cb as u32) {
            proof {
                lemma_lex_cmp_skip(a@, b@, i as int);
                assert(a@.skip(i as int)[0] == a@[i as int]);
                assert(b@.skip(i as int)[0] == b@[i as int]);
                assert(lex_cmp(a@.skip(i as int), b@.skip(i as int)) == -1);
            }
            return -1;
        }
        if (ca as u32) > (cb as u32) {
            proof {
                lemma_lex_cmp_skip(a@, b@, i as int);
                assert(a@.skip(i as int)[0] == a@[i as int]);
                assert(b@.skip(i as int)[0] == b@[i as int]);
                assert(lex_cmp(a@.skip(i as int), b@.skip(i as int)) == 1);
            }
            return 1;
        }
        proof {
            lemma_char_u32_inj(ca, cb);
        }
        i = i + 1;
    }
    proof {
        lemma_lex_cmp_skip(a@, b@, n as int);
    }
    if na < nb {
        -1
    } else if na > nb {
        1
    } else {
        assert(a@.skip(n as int) =~= Seq::<char>::empty());
        assert(b@.skip(n as int) =~= Seq::<char>::empty());
        0
    }
}

/// Whether two strings hold the same characters.
pub fn str_eq(a: &str, b: &str) -> (r: bool)
    ensures
        r == (a@ == b@),
{
    let va = chars_vec(a);
    let vb = chars_vec(b);
    let c = lex_cmp_chars(&va, &vb);
    proof {
        lemma_lex_cmp_eq(a@, b@);
    }
    c == 0
}

/// The lowercase ASCII value of a character: ASCII uppercase letters are
/// shifted to their lowercase counterpart, all else is untouched.
pub open spec fn ascii_lower_val(c: char) -> int {
    if 65 <= c as u32 <= 90 {
        c as u32 + 32
    } else {
        c as u32 as int
    }
}

/// Whether two characters are equal ignoring ASCII case, as
/// `char::eq_ignore_ascii_case` decides it.
pub fn ascii_eq_char(a: char, b: char) -> (r: bool)
    ensures
        r == (ascii_lower_val(a) == ascii_lower_val(b)),
{
    let av = a as u32;
    let bv = b as u32;
    let al = if 65 <= av && av <= 90 {
        av + 32
    } else {
        av
    };
    let bl = if 65 <= bv && bv <= 90 {
        bv + 32
    } else {
        bv
    };
    al == bl
}

/// Whether two character sequences are equal ignoring ASCII case.
pub open spec fn ascii_eq(a: Seq<char>, b: Seq<char>) -> bool {
    a.len() == b.len() && forall|i: int|
        0 <= i < a.len() ==> ascii_lower_val(a[i]) == ascii_lower_val(b[i])
}

/// Whether two character vectors are equal ignoring ASCII case, as
/// `str::eq_ignore_ascii_case` decides it.
pub fn ascii_eq_chars(a: &Vec<char>, b: &Vec<char>) -> (r: bool)
    ensures
        r == ascii_eq(a@, b@),
{
    if a.len() != b.len() {
        return false;
    }
    let mut i: usize = 0;
    while i < a.len()
        invariant
            i <= a@.len(),
            a@.len() == b@.len(),
            forall|j: int| 0 <= j < i ==> ascii_lower_val(a@[j]) == ascii_lower_val(b@[j]),
        decreases a@.len() - i,
    {
        if !ascii_eq_char(a[i], b[i]) {
            return false;
        }
        i = i + 1;
    }
    true
}

/// One step of whitespace collapsing: spaces after the first output
/// character become a single pending separator; a non-space flushes it.
pub open spec fn collapse_step(acc: Seq<char>, pending: bool, c: char) -> (Seq<char>, bool) {
    if is_space(c) {
        (acc, pending || acc.len() > 0)
    } else {
        if pending {
            (acc + seq![' ', c], false)
        } else {
            (acc + seq![c], false)
        }
    }
}

pub open spec fn collapse_from(s: Seq<char>, i: int, acc: Seq<char>, pending: bool) -> Seq<char>
    decreases s.len() - i,
{
    if i < 0 || i >= s.len() {
        acc
    } else {
        let (acc2, pending2) = collapse_step(acc, pending, s[i]);
        collapse_from(s, i + 1, acc2, pending2)
    }
}

/// The words of a sequence joined by single spaces: what
/// `split_whitespace` followed by `join(" ")` produces.
pub open spec fn collapse_ws(s: Seq<char>) -> Seq<char> {
    collapse_from(s, 0, Seq::empty(), false)
}

/// Collapse runs of whitespace to single spaces and trim the ends.
pub fn collapse_whitespace(v: &Vec<char>) -> (r: Vec<char>)
    ensures
        r@ == collapse_ws(v@),
{
    let mut r: Vec<char> = Vec::new();
    let mut pending = false;
    let mut i: usize = 0;
    while i < v.len()
        invariant
            i <= v@.len(),
            collapse_from(v@, i as int, r@, pending) == collapse_ws(v@),
        decreases v@.len() - i,
    {
        let c = v[i];
        let ghost acc0 = r@;
        let ghost p0 = pending;
        if is_whitespace_char(c) {
            if r.len() > 0 {
                pending = true;
            }
        } else {
            if pending {
                r.push(' ');
                pending = false;
            }
            r.push(c);
        }
        proof {
            let (acc2, p2) = collapse_step(acc0, p0, v@[i as int]);
            assert(r@ =~= acc2);
            assert(pending == p2);
            assert(collapse_from(v@, i as int, acc0, p0) == collapse_from(v@, i + 1, acc2, p2));
        }
        i = i + 1;
    }
    r
}

/// The characters of `s` that are alphanumeric or whitespace, in order.
pub open spec fn keep_alnum_ws(s: Seq<char>) -> Seq<char> {
    s.filter(|c: char| is_alphanum(c) || is_space(c))
}

/// Keep only alphanumeric and whitespace characters.
pub fn filter_alnum_ws(v: &Vec<char>) -> (r: Vec<char>)
    ensures
        r@ == keep_alnum_ws(v@),
{
    let mut r: Vec<char> = Vec::new();
    let mut i: usize = 0;
    while i < v.len()
        invariant
            i <= v@.len(),
            r@ == v@.take(i as int).filter(|c: char| is_alphanum(c) || is_space(c)),
        decreases v@.len() - i,
    {
        let c = v[i];
        let keep = if is_alphanumeric_char(c) {
            true
        } else {
            is_whitespace_char(c)
        };
        proof {
            reveal_with_fuel(Seq::filter, 2);
            assert(v@.take(i + 1).drop_last() =~= v@.take(i as int));
            assert(v@.take(i + 1).last() == v@[i as int]);
        }
        if keep {
            r.push(c);
        }
        i = i + 1;
    }
    proof {
        assert(v@.take(v@.len() as int) =~= v@);
    }
    r
}

/// The longest prefix of `s` without its leading whitespace.
pub open spec fn trim_start_spec(s: Seq<char>) -> Seq<char>
    decreases s.len(),
{
    if s.len() > 0 && is_space(s[0]) {
        trim_start_spec(s.drop_first())
    } else {
        s
    }
}

/// `s` without its trailing whitespace.
pub open spec fn trim_end_spec(s: Seq<char>) -> Seq<char>
    decreases s.len(),
{
    if s.len() > 0 && is_space(s.last()) {
        trim_end_spec(s.drop_last())
    } else {
        s
    }
}

/// `s` without leading and trailing whitespace, as `str::trim` returns it.
pub open spec fn trim_spec(s: Seq<char>) -> Seq<char> {
    trim_end_spec(trim_start_spec(s))
}

proof fn lemma_trim_start_at(s: Seq<char>, k: int)
    requires
        0 <= k <= s.len(),
        forall|j: int| 0 <= j < k ==> is_space(s[j]),
        k == s.len() || !is_space(s[k]),
    ensures
        trim_start_spec(s) == s.skip(k),
    decreases k,
{
    if k > 0 {
        lemma_trim_start_at(s.drop_first(), k - 1);
        assert(s.drop_first().skip(k - 1) =~= s.skip(k));
    } else {
        assert(s.skip(0) =~= s);
    }
}

proof fn lemma_trim_end_at(s: Seq<char>, m: int)
    requires
        0 <= m <= s.len(),
        forall|j: int| m <= j < s.len() ==> is_space(s[j]),
        m == 0 || !is_space(s[m - 1]),
    ensures
        trim_end_spec(s) == s.take(m),
    decreases s.len() - m,
{
    if m < s.len() {
        lemma_trim_end_at(s.drop_last(), m);
        assert(s.drop_last().take(m) =~= s.take(m));
    } else {
        assert(s.take(m) =~= s);
    }
}

/// `v` without leading and trailing whitespace.
pub fn trim_chars(v: &Vec<char>) -> (r: Vec<char>)
    ensures
        r@ == trim_spec(v@),
{
    let n = v.len();
    let mut start: usize = 0;
    while start < n && is_whitespace_char(v[start])
        invariant
            start <= n,
            n == v@.len(),
            forall|j: int| 0 <= j < start ==> is_space(v@[j]),
        decreases n - start,
    {
        start = start + 1;
    }
    let mut end: usize = n;
    while end > start && is_whitespace_char(v[end - 1])
        invariant
            start <= end <= n,
            n == v@.len(),
            forall|j: int| end <= j < n ==> is_space(v@[j]),
        decreases end,
    {
        end = end - 1;
    }
    let mut r: Vec<char> = Vec::new();
    let mut i: usize = start;
    while i < end
        invariant
            start <= i <= end <= n,
            n == v@.len(),
            r@ == v@.subrange(start as int, i as int),
        decreases end - i,
    {
        r.push(v[i]);
        i = i + 1;
        assert(r@ =~= v@.subrange(start as int, i as int));
    }
    proof {
        lemma_trim_start_at(v@, start as int);
        lemma_trim_end_at(v@.skip(start as int), end - start as int);
        assert(v@.skip(start as int).take(end - start as int) =~= v@.subrange(
            start as int,
            end as int,
        ));
    }
    r
}

/// The index of the first `sep` in `s`, or `s.len()` if there is none.
pub open spec fn first_at(s: Seq<char>, sep: char) -> int
    decreases s.len(),
{
    if s.len() == 0 {
        0
    } else if s[0] == sep {
        0
    } else {
        1 + first_at(s.drop_first(), sep)
    }
}

pub proof fn lemma_first_at(s: Seq<char>, sep: char)
    ensures
        0 <= first_at(s, sep) <= s.len(),
        first_at(s, sep) < s.len() ==> s[first_at(s, sep)] == sep,
        forall|j: int| 0 <= j < first_at(s, sep) ==> s[j] != sep,
    decreases s.len(),
{
    if s.len() > 0 && s[0] != sep {
        lemma_first_at(s.drop_first(), sep);
        assert forall|j: int| 0 <= j < first_at(s, sep) implies s[j] != sep by {
            if j > 0 {
                assert(s.drop_first()[j - 1] == s[j]);
            }
        }
    }
}

proof fn lemma_first_at_is(s: Seq<char>, sep: char, k: int)
    requires
        0 <= k <= s.len(),
        forall|j: int| 0 <= j < k ==> s[j] != sep,
        k == s.len() || s[k] == sep,
    ensures
        first_at(s, sep) == k,
    decreases k,
{
    if k > 0 {
        lemma_first_at_is(s.drop_first(), sep, k - 1);
    }
}

/// The prefix of `s` before its first `sep`: what `split(sep).next` yields.
pub open spec fn before_char(s: Seq<char>, sep: char) -> Seq<char> {
    s.take(first_at(s, sep))
}

/// The segments of `s` between occurrences of `sep`, in order: what
/// `split(sep)` yields.
pub open spec fn split_char(s: Seq<char>, sep: char) -> Seq<Seq<char>>
    decreases s.len(),
{
    let k = first_at(s, sep);
    if !(0 <= k < s.len()) {
        seq![s]
    } else {
        seq![s.take(k)] + split_char(s.skip(k + 1), sep)
    }
}

/// The prefix of `v` before its first `sep`.
pub fn before_char_chars(v: &Vec<char>, sep: char) -> (r: Vec<char>)
    ensures
        r@ == before_char(v@, sep),
{
    let n = v.len();
    let mut k: usize = 0;
    while k < n && v[k] != sep
        invariant
            k <= n,
            n == v@.len(),
            forall|j: int| 0 <= j < k ==> v@[j] != sep,
        decreases n - k,
    {
        k = k + 1;
    }
    proof {
        lemma_first_at_is(v@, sep, k as int);
    }
    let mut r: Vec<char> = Vec::new();
    let mut i: usize = 0;
    while i < k
        invariant
            i <= k <= n,
            n == v@.len(),
            r@ == v@.take(i as int),
        decreases k - i,
    {
        r.push(v[i]);
        i = i + 1;
        assert(r@ =~= v@.take(i as int));
    }
    r
}

/// The segments of `v` between occurrences of `sep`, in order.
pub fn split_char_chars(v: &Vec<char>, sep: char) -> (r: Vec<Vec<char>>)
    ensures
        r.deep_view() == split_char(v@, sep),
{
    let n = v.len();
    let mut r: Vec<Vec<char>> = Vec::new();
    let mut pos: usize = 0;
    proof {
        assert(v@.skip(0) =~= v@);
        assert(r.deep_view() =~= Seq::<Seq<char>>::empty());
        assert(r.deep_view() + split_char(v@, sep) =~~= split_char(v@, sep));
    }
    loop
        invariant_except_break
            split_char(v@, sep) == r.deep_view() + split_char(v@.skip(pos as int), sep),
        invariant
            pos <= n,
            n == v@.len(),
        ensures
            r.deep_view() == split_char(v@, sep),
        decreases n - pos,
    {
        let mut k: usize = pos;
        while k < n && v[k] != sep
            invariant
                pos <= k <= n,
                n == v@.len(),
                forall|j: int| pos <= j < k ==> v@[j] != sep,
            decreases n - k,
        {
            k = k + 1;
        }
        proof {
            assert forall|j: int| 0 <= j < k - pos implies v@.skip(pos as int)[j] != sep by {
                assert(v@.skip(pos as int)[j] == v@[j + pos]);
            }
            lemma_first_at_is(v@.skip(pos as int), sep, k - pos as int);
        }
        let mut seg: Vec<char> = Vec::new();
        let mut i: usize = pos;
        while i < k
            invariant
                pos <= i <= k <= n,
                n == v@.len(),
                seg@ == v@.subrange(pos as int, i as int),
            decreases k - i,
        {
            seg.push(v[i]);
            i = i + 1;
            assert(seg@ =~= v@.subrange(pos as int, i as int));
        }
        proof {
            assert(seg@ =~= v@.skip(pos as int).take(k - pos as int));
        }
        let ghost old_r = r.deep_view();
        r.push(seg);
        proof {
            assert(r.deep_view() =~~= old_r + seq![seg@]);
        }
        if k == n {
            proof {
                assert(v@.skip(pos as int).take(k - pos as int) =~= v@.skip(pos as int));
                assert(first_at(v@.skip(pos as int), sep) == v@.skip(pos as int).len());
                assert(split_char(v@.skip(pos as int), sep) == seq![v@.skip(pos as int)]);
                assert(r.deep_view() =~~= old_r + split_char(v@.skip(pos as int), sep));
                assert(r.deep_view() =~~= split_char(v@, sep));
            }
            break;
        }
        proof {
            let rest = v@.skip(pos as int);
            assert(rest.skip(k - pos as int + 1) =~= v@.skip(k as int + 1));
            assert(split_char(rest, sep) == seq![rest.take(k - pos as int)] + split_char(
                v@.skip(k as int + 1),
                sep,
            ));
            assert(old_r + split_char(rest, sep) =~~= r.deep_view() + split_char(
                v@.skip(k as int + 1),
                sep,
            ));
        }
        pos = k + 1;
    }
    r
}

/// The character of a decimal digit.
pub open spec fn spec_digit(d: int) -> char {
    ((48 + d) as u8) as char
}

/// The decimal digits of a non-negative number, most significant first.
pub open spec fn spec_decimal(n: int) -> Seq<char>
    decreases n,
{
    if n < 10 {
        seq![spec_digit(n)]
    } else {
        spec_decimal(n / 10) + seq![spec_digit(n % 10)]
    }
}

/// The decimal representation of a number, without sign or padding.
pub fn u32_to_string(n: u32) -> (r: String)
    ensures
        r@ == spec_decimal(n as int),
{
    let mut m = n;
    let mut low: Vec<char> = Vec::new();
    while m >= 10
        invariant
            spec_decimal(n as int) == spec_decimal(m as int) + low@.reverse(),
        decreases m,
    {
        let d = m % 10;
        let c = (48 + d as u8) as char;
        proof {
            assert(c == spec_digit(m as int % 10));
            assert(low@.push(c).reverse() =~= seq![c] + low@.reverse());
            assert(spec_decimal(m as int) == spec_decimal(m as int / 10) + seq![
                spec_digit(m as int % 10),
            ]);
            assert(spec_decimal(m as int / 10) + (seq![c] + low@.reverse()) =~= spec_decimal(
                m as int,
            ) + low@.reverse());
        }
        low.push(c);
        m = m / 10;
    }
    let d = m % 10;
    let c = (48 + d as u8) as char;
    proof {
        assert(m as int % 10 == m as int);
        assert(c == spec_digit(m as int));
        assert(spec_decimal(m as int) == seq![c]);
    }
    let mut out: Vec<char> = Vec::new();
    out.push(c);
    let mut j = low.len();
    while j > 0
        invariant
            j <= low@.len(),
            out@ == seq![spec_digit(m as int)] + low@.reverse().take(low@.len() - j),
        decreases j,
    {
        j = j - 1;
        out.push(low[j]);
        proof {
            assert(low@.reverse()[low@.len() - j - 1] == low@[j as int]);
            assert(out@ =~= seq![spec_digit(m as int)] + low@.reverse().take(low@.len() - j));
        }
    }
    proof {
        assert(low@.reverse().take(low@.len() as int) =~= low@.reverse());
        assert(out@ =~= spec_decimal(m as int) + low@.reverse());
    }
    string_from_chars(&out)
}


/// A name with every character outside letters, digits, `-`, `_` and space
/// turned into `_`, as stored file names allow.
pub open spec fn sanitized_chars(s: Seq<char>) -> Seq<char> {
    s.map_values(
        |c: char|
            if is_alphanum(c) || c == '-' || c == '_' || c == ' ' {
                c
            } else {
                '_'
            },
    )
}

/// Turn a playlist name into a safe file name: disallowed characters
/// become underscores and the ends are trimmed.
pub fn sanitize_filename(name: &str) -> (r: String)
    ensures
        r@ == trim_spec(sanitized_chars(name@)),
{
    let v = chars_vec(name);
    let mut mapped: Vec<char> = Vec::new();
    let mut i: usize = 0;
    while i < v.len()
        invariant
            i <= v@.len(),
            mapped@ == sanitized_chars(v@.take(i as int)),
        decreases v@.len() - i,
    {
        let c = v[i];
        let keep = if is_alphanumeric_char(c) {
            true
        } else {
            c == '-' || c == '_' || c == ' '
        };
        if keep {
            mapped.push(c);
        } else {
            mapped.push('_');
        }
        i = i + 1;
        assert(mapped@ =~= sanitized_chars(v@.take(i as int)));
    }
    assert(v@.take(v@.len() as int) =~= v@);
    let trimmed = trim_chars(&mapped);
    string_from_chars(&trimmed)
}

/// A text with every double quote doubled, as a quoted CSV field wants it.
pub open spec fn csv_escaped(s: Seq<char>) -> Seq<char>
    decreases s.len(),
{
    if s.len() == 0 {
        s
    } else {
        csv_escaped(s.drop_last()) + (if s.last() == '"' {
            seq!['"', '"']
        } else {
            seq![s.last()]
        })
    }
}

/// Escape a field for a quoted CSV cell.
pub fn escape_csv(s: &str) -> (r: String)
    ensures
        r@ == csv_escaped(s@),
{
    let v = chars_vec(s);
    let mut out: Vec<char> = Vec::new();
    let mut i: usize = 0;
    proof {
        assert(csv_escaped(v@.take(0)) =~= Seq::<char>::empty());
    }
    while i < v.len()
        invariant
            i <= v@.len(),
            out@ == csv_escaped(v@.take(i as int)),
        decreases v@.len() - i,
    {
        let c = v[i];
        proof {
            assert(v@.take(i + 1).drop_last() =~= v@.take(i as int));
            assert(v@.take(i + 1).last() == v@[i as int]);
        }
        if c == '"' {
            out.push('"');
            out.push('"');
        } else {
            out.push(c);
        }
        i = i + 1;
        assert(out@ =~= csv_escaped(v@.take(i as int)));
    }
    assert(v@.take(v@.len() as int) =~= v@);
    string_from_chars(&out)
}

} // verus!
