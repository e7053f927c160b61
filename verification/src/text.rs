use vstd::prelude::*;
use vstd::string::*;
use crate::foreign::{char_is_whitespace, unicode_white_space};

verus! {

broadcast use vstd::string::group_string_axioms;

/// The characters of a string slice, in order.
pub fn chars_of(s: &str) -> (v: Vec<char>)
    ensures
        v@ == s@,
{
    let mut v: Vec<char> = Vec::new();
    for c in it: s.chars()
        invariant
            v@ == it.seq().take(it.index() as int),
            it.seq() == s@,
    {
        v.push(c);
    }
    v
}

/// A copy of the characters `s[a..b]`.
pub fn slice_chars(s: &Vec<char>, a: usize, b: usize) -> (v: Vec<char>)
    requires
        a <= b <= s.len(),
    ensures
        v@ == s@.subrange(a as int, b as int),
{
    let mut v: Vec<char> = Vec::new();
    let mut i = a;
    while i < b
        invariant
            a <= i <= b <= s.len(),
            v@ == s@.subrange(a as int, i as int),
        decreases b - i,
    {
        v.push(s[i]);
        i = i + 1;
        assert(v@ =~= s@.subrange(a as int, i as int));
    }
    v
}

// ------------------------------------------------------------------ search

/// `needle` occurs in `hay` starting at index `i`.
pub open spec fn occurs_at(hay: Seq<char>, needle: Seq<char>, i: int) -> bool {
    0 <= i && i + needle.len() <= hay.len() && hay.subrange(i, i + needle.len()) == needle
}

/// `needle` occurs somewhere in `hay` (the empty sequence occurs in every sequence).
pub open spec fn contains_seq(hay: Seq<char>, needle: Seq<char>) -> bool {
    exists|i: int| #[trigger] occurs_at(hay, needle, i)
}

/// Whether `needle` occurs in `hay` at index `i`.
pub fn matches_at(hay: &Vec<char>, needle: &Vec<char>, i: usize) -> (r: bool)
    requires
        i + needle.len() <= hay.len(),
    ensures
        r == occurs_at(hay@, needle@, i as int),
{
    let m = needle.len();
    let mut k: usize = 0;
    while k < m
        invariant
            k <= m == needle.len(),
            i + m <= hay.len(),
            forall|j: int| 0 <= j < k ==> hay@[i + j] == needle@[j],
        decreases m - k,
    {
        if hay[i + k] != needle[k] {
            assert(hay@.subrange(i as int, i + m)[k as int] != needle@[k as int]);
            return false;
        }
        k = k + 1;
    }
    assert(hay@.subrange(i as int, i + m) =~= needle@);
    true
}

/// Whether `needle` occurs in `hay`, as `str::contains` with a string pattern answers.
pub fn contains(hay: &Vec<char>, needle: &Vec<char>) -> (r: bool)
    ensures
        r == contains_seq(hay@, needle@),
{
    let n = hay.len();
    let m = needle.len();
    if m > n {
        assert forall|j: int| !occurs_at(hay@, needle@, j) by {}
        return false;
    }
    let mut i: usize = 0;
    while i < n - m
        invariant
            m <= n,
            i <= n - m,
            n == hay.len(),
            m == needle.len(),
            forall|j: int| 0 <= j < i ==> !#[trigger] occurs_at(hay@, needle@, j),
        decreases n - m - i,
    {
        if matches_at(hay, needle, i) {
            return true;
        }
        i = i + 1;
    }
    if matches_at(hay, needle, i) {
        return true;
    }
    assert forall|j: int| !#[trigger] occurs_at(hay@, needle@, j) by {
        if 0 <= j <= i {
        }
    }
    false
}

/// Whether some character of `s` is not in `set`.
pub fn has_char_outside(s: &Vec<char>, set: &Vec<char>) -> (r: bool)
    ensures
        r == exists|i: int| 0 <= i < s.len() && !set@.contains(#[trigger] s@[i]),
{
    let mut i: usize = 0;
    while i < s.len()
        invariant
            i <= s.len(),
            forall|j: int| 0 <= j < i ==> set@.contains(#[trigger] s@[j]),
        decreases s.len() - i,
    {
        let c = s[i];
        let mut found = false;
        let mut k: usize = 0;
        while k < set.len()
            invariant
                k <= set.len(),
                found ==> set@.contains(c),
                !found ==> forall|j: int| 0 <= j < k ==> set@[j] != c,
            decreases set.len() - k,
        {
            if set[k] == c {
                found = true;
            }
            k = k + 1;
        }
        if !found {
            return true;
        }
        i = i + 1;
    }
    false
}

// ------------------------------------------------------------------ splitting

/// The pieces of `s` between occurrences of `c`, as `str::split` with a one-character
/// pattern yields them: one more piece than there are occurrences, empty pieces kept.
pub open spec fn split_on(s: Seq<char>, c: char) -> Seq<Seq<char>>
    decreases s.len(),
{
    if s.len() == 0 {
        seq![Seq::empty()]
    } else {
        let prev = split_on(s.drop_last(), c);
        if s.last() == c {
            prev.push(Seq::empty())
        } else {
            prev.update(prev.len() - 1, prev.last().push(s.last()))
        }
    }
}

/// There is always at least one piece.
pub proof fn lemma_split_on_nonempty(s: Seq<char>, c: char)
    ensures
        split_on(s, c).len() >= 1,
    decreases s.len(),
{
    if s.len() > 0 {
        lemma_split_on_nonempty(s.drop_last(), c);
    }
}

/// The bounds of the pieces of `s` between occurrences of `c`.
pub fn split_spans(s: &Vec<char>, c: char) -> (spans: Vec<(usize, usize)>)
    ensures
        spans.len() == split_on(s@, c).len(),
        forall|k: int|
            0 <= k < spans.len() ==> {
                &&& (#[trigger] spans@[k]).0 <= spans@[k].1 <= s.len()
                &&& s@.subrange(spans@[k].0 as int, spans@[k].1 as int) == split_on(s@, c)[k]
            },
{
    let n = s.len();
    let mut spans: Vec<(usize, usize)> = Vec::new();
    let mut start: usize = 0;
    let mut i: usize = 0;
    assert(s@.take(0) =~= Seq::<char>::empty());
    while i < n
        invariant
            n == s.len(),
            start <= i <= n,
            split_on(s@.take(i as int), c).len() == spans.len() + 1,
            forall|k: int|
                0 <= k < spans.len() ==> {
                    &&& (#[trigger] spans@[k]).0 <= spans@[k].1 <= i
                    &&& s@.subrange(spans@[k].0 as int, spans@[k].1 as int) == split_on(
                        s@.take(i as int),
                        c,
                    )[k]
                },
            split_on(s@.take(i as int), c)[spans.len() as int] == s@.subrange(
                start as int,
                i as int,
            ),
        decreases n - i,
    {
        let ghost prev = split_on(s@.take(i as int), c);
        assert(s@.take(i + 1).drop_last() =~= s@.take(i as int));
        assert(s@.take(i + 1).last() == s@[i as int]);
        if s[i] == c {
            spans.push((start, i));
            start = i + 1;
            assert(s@.subrange(start as int, (i + 1) as int) =~= Seq::<char>::empty());
        } else {
            assert(s@.subrange(start as int, (i + 1) as int) =~= s@.subrange(
                start as int,
                i as int,
            ).push(s@[i as int]));
        }
        i = i + 1;
    }
    spans.push((start, n));
    assert(s@.take(n as int) =~= s@);
    spans
}

// ------------------------------------------------------------------ trimming

/// The number of white-space characters at the start of `s`.
pub open spec fn leading_white(s: Seq<char>) -> nat
    decreases s.len(),
{
    if s.len() > 0 && unicode_white_space(s[0]) {
        1 + leading_white(s.drop_first())
    } else {
        0
    }
}

/// The number of white-space characters at the end of `s`.
pub open spec fn trailing_white(s: Seq<char>) -> nat
    decreases s.len(),
{
    if s.len() > 0 && unicode_white_space(s.last()) {
        1 + trailing_white(s.drop_last())
    } else {
        0
    }
}

/// `s` without its leading and trailing white space, as `str::trim` gives it.
pub open spec fn trimmed(s: Seq<char>) -> Seq<char> {
    if leading_white(s) >= s.len() {
        Seq::empty()
    } else {
        s.subrange(leading_white(s) as int, s.len() - trailing_white(s))
    }
}

proof fn lemma_leading_white_bound(s: Seq<char>)
    ensures
        leading_white(s) <= s.len(),
        forall|j: int| 0 <= j < leading_white(s) ==> unicode_white_space(#[trigger] s[j]),
        leading_white(s) < s.len() ==> !unicode_white_space(s[leading_white(s) as int]),
    decreases s.len(),
{
    if s.len() > 0 && unicode_white_space(s[0]) {
        lemma_leading_white_bound(s.drop_first());
        assert forall|j: int| 0 <= j < leading_white(s) implies unicode_white_space(
            #[trigger] s[j],
        ) by {
            if j > 0 {
                assert(s[j] == s.drop_first()[j - 1]);
            }
        }
    }
}

proof fn lemma_trailing_white_bound(s: Seq<char>)
    ensures
        trailing_white(s) <= s.len(),
        leading_white(s) < s.len() ==> leading_white(s) + trailing_white(s) < s.len(),
    decreases s.len(),
{
    lemma_leading_white_bound(s);
    if s.len() > 0 && unicode_white_space(s.last()) {
        lemma_trailing_white_bound(s.drop_last());
        if leading_white(s) < s.len() {
            assert(!unicode_white_space(s[leading_white(s) as int]));
            lemma_leading_white_prefix(s);
        }
    }
}

proof fn lemma_leading_white_prefix(s: Seq<char>)
    requires
        s.len() > 0,
        leading_white(s) < s.len() - 1 || (leading_white(s) < s.len() && !unicode_white_space(
            s.last(),
        )),
    ensures
        leading_white(s.drop_last()) == leading_white(s),
    decreases s.len(),
{
    if s.len() > 1 && unicode_white_space(s[0]) {
        assert(s.drop_last().drop_first() =~= s.drop_first().drop_last());
        lemma_leading_white_bound(s);
        lemma_leading_white_prefix(s.drop_first());
    }
}

/// The bounds, within `s`, of `s` trimmed of white space.
pub fn trim_span(s: &Vec<char>) -> (r: (usize, usize))
    ensures
        r.0 <= r.1 <= s.len(),
        s@.subrange(r.0 as int, r.1 as int) == trimmed(s@),
{
    let n = s.len();
    let mut lo: usize = 0;
    proof {
        assert(s@.skip(0) =~= s@);
    }
    while lo < n && char_is_whitespace(s[lo])
        invariant
            lo <= n == s.len(),
            leading_white(s@) == lo + leading_white(s@.skip(lo as int)),
        decreases n - lo,
    {
        assert(s@.skip(lo as int).drop_first() =~= s@.skip(lo + 1));
        lo = lo + 1;
    }
    if lo < n {
        assert(s@.skip(lo as int)[0] == s@[lo as int]);
    } else {
        assert(s@.skip(lo as int).len() == 0);
    }
    if lo == n {
        assert(s@.subrange(n as int, n as int) =~= Seq::<char>::empty());
        return (n, n);
    }
    let mut hi: usize = n;
    proof {
        assert(s@.take(n as int) =~= s@);
        lemma_trailing_white_bound(s@);
    }
    while hi > lo && char_is_whitespace(s[hi - 1])
        invariant
            lo < n == s.len(),
            lo <= hi <= n,
            leading_white(s@) == lo,
            lo < s.len(),
            trailing_white(s@) == (n - hi) + trailing_white(s@.take(hi as int)),
        decreases hi,
    {
        assert(s@.take(hi as int).drop_last() =~= s@.take(hi - 1));
        hi = hi - 1;
    }
    proof {
        lemma_leading_white_bound(s@);
        if hi > lo {
            assert(s@.take(hi as int).last() == s@[hi - 1]);
        } else {
            assert(!unicode_white_space(s@[lo as int]));
        }
    }
    (lo, hi)
}


// ------------------------------------------------------------------ lines

/// A piece without the carriage return that ends it, if one does.
pub open spec fn strip_cr(p: Seq<char>) -> Seq<char> {
    if p.len() > 0 && p.last() == '\r' {
        p.drop_last()
    } else {
        p
    }
}

/// The lines of `s`, as `str::lines` yields them: `s` is cut at each line feed, a
/// carriage return just before a line feed is dropped, and the final line ending is
/// optional (an empty piece after the last line feed is not a line).
pub open spec fn lines_of(s: Seq<char>) -> Seq<Seq<char>> {
    let p = split_on(s, '\n');
    let body = Seq::new((p.len() - 1) as nat, |k: int| strip_cr(p[k]));
    if p.last().len() == 0 {
        body
    } else {
        body.push(p.last())
    }
}

/// The bounds of the lines of `s`.
pub fn line_spans(s: &Vec<char>) -> (lines: Vec<(usize, usize)>)
    ensures
        lines.len() == lines_of(s@).len(),
        forall|k: int|
            0 <= k < lines.len() ==> {
                &&& (#[trigger] lines@[k]).0 <= lines@[k].1 <= s.len()
                &&& s@.subrange(lines@[k].0 as int, lines@[k].1 as int) == lines_of(s@)[k]
            },
{
    let spans = split_spans(s, '\n');
    proof {
        lemma_split_on_nonempty(s@, '\n');
    }
    let ghost p = split_on(s@, '\n');
    let ghost body = Seq::new((p.len() - 1) as nat, |k: int| strip_cr(p[k]));
    let mut lines: Vec<(usize, usize)> = Vec::new();
    let last = spans.len() - 1;
    let mut k: usize = 0;
    while k < last
        invariant
            last + 1 == spans.len() == p.len(),
            p == split_on(s@, '\n'),
            body == Seq::new((p.len() - 1) as nat, |k: int| strip_cr(p[k])),
            k <= last,
            lines.len() == k,
            forall|j: int|
                0 <= j < spans.len() ==> {
                    &&& (#[trigger] spans@[j]).0 <= spans@[j].1 <= s.len()
                    &&& s@.subrange(spans@[j].0 as int, spans@[j].1 as int) == p[j]
                },
            forall|j: int|
                0 <= j < k ==> {
                    &&& (#[trigger] lines@[j]).0 <= lines@[j].1 <= s.len()
                    &&& s@.subrange(lines@[j].0 as int, lines@[j].1 as int) == body[j]
                },
        decreases last - k,
    {
        let (a, b) = spans[k];
        let ghost piece = s@.subrange(a as int, b as int);
        if b > a && s[b - 1] == '\r' {
            assert(piece.last() == s@[b - 1]);
            assert(s@.subrange(a as int, b - 1) =~= piece.drop_last());
            lines.push((a, b - 1));
        } else {
            lines.push((a, b));
        }
        k = k + 1;
    }
    let (a, b) = spans[last];
    if a < b {
        lines.push((a, b));
    }
    assert(p.last() == p[last as int]);
    proof {
        if a < b {
            assert(lines@.len() == body.len() + 1);
        } else {
            assert(s@.subrange(a as int, b as int).len() == 0);
        }
    }
    lines
}

// ------------------------------------------------------------------ prefixes

/// `s` with every leading repetition of the non-empty `p` removed, as
/// `str::trim_start_matches` with a string pattern gives it.
pub open spec fn strip_prefixes(s: Seq<char>, p: Seq<char>) -> Seq<char>
    decreases s.len(),
{
    if p.len() > 0 && p.len() <= s.len() && s.take(p.len() as int) == p {
        strip_prefixes(s.skip(p.len() as int), p)
    } else {
        s
    }
}

/// Where `s[a..b]` starts once leading repetitions of `p` are removed.
pub fn strip_prefixes_from(s: &Vec<char>, a: usize, b: usize, p: &Vec<char>) -> (j: usize)
    requires
        a <= b <= s.len(),
    ensures
        a <= j <= b,
        s@.subrange(j as int, b as int) == strip_prefixes(s@.subrange(a as int, b as int), p@),
{
    let m = p.len();
    let mut j = a;
    if m == 0 {
        return a;
    }
    while j <= b && m <= b - j && matches_at(s, p, j)
        invariant
            a <= j <= b <= s.len(),
            m == p.len() > 0,
            strip_prefixes(s@.subrange(a as int, b as int), p@) == strip_prefixes(
                s@.subrange(j as int, b as int),
                p@,
            ),
        decreases b - j,
    {
        assert(s@.subrange(j as int, b as int).take(m as int) =~= s@.subrange(
            j as int,
            (j + m) as int,
        ));
        assert(s@.subrange(j as int, b as int).skip(m as int) =~= s@.subrange(
            (j + m) as int,
            b as int,
        ));
        j = j + m;
    }
    if m <= b - j {
        assert(s@.subrange(j as int, b as int).take(m as int) =~= s@.subrange(
            j as int,
            (j + m) as int,
        ));
    }
    j
}

// ------------------------------------------------------------------ numbers

/// An ASCII decimal digit.
pub open spec fn is_digit(c: char) -> bool {
    48 <= (c as u32) <= 57
}

/// The value of a decimal digit.
pub open spec fn digit_value(c: char) -> nat {
    if is_digit(c) {
        ((c as u32) - 48) as nat
    } else {
        0
    }
}

/// The value of a sequence of decimal digits, most significant first.
pub open spec fn digits_value(d: Seq<char>) -> nat
    decreases d.len(),
{
    if d.len() == 0 {
        0
    } else {
        digits_value(d.drop_last()) * 10 + digit_value(d.last())
    }
}

/// The digits of an unsigned literal: an optional leading `+` is not part of them.
pub open spec fn unsigned_digits(s: Seq<char>) -> Seq<char> {
    if s.len() > 0 && s[0] == '+' {
        s.drop_first()
    } else {
        s
    }
}

/// `s` is what `str::parse::<usize>` accepts: an optional `+`, then at least one
/// decimal digit and nothing else, of a value that fits in a `usize`.
pub open spec fn is_usize_literal(s: Seq<char>) -> bool {
    let d = unsigned_digits(s);
    &&& d.len() > 0
    &&& forall|i: int| 0 <= i < d.len() ==> is_digit(#[trigger] d[i])
    &&& digits_value(d) <= usize::MAX
}

/// The value of an unsigned literal.
pub open spec fn usize_literal_value(s: Seq<char>) -> nat {
    digits_value(unsigned_digits(s))
}

proof fn lemma_digits_value_grows(d: Seq<char>, k: int)
    requires
        0 <= k <= d.len(),
    ensures
        digits_value(d.take(k)) <= digits_value(d),
    decreases d.len(),
{
    if k < d.len() {
        assert(d.drop_last().take(k) =~= d.take(k));
        lemma_digits_value_grows(d.drop_last(), k);
    } else {
        assert(d.take(k) =~= d);
    }
}

/// Parses `s` as `str::parse::<usize>` does; `None` where that returns an error.
pub fn parse_usize(s: &Vec<char>) -> (r: Option<usize>)
    ensures
        r is Some <==> is_usize_literal(s@),
        r matches Some(v) ==> v == usize_literal_value(s@),
{
    let n = s.len();
    let start: usize = if n > 0 && s[0] == '+' {
        1
    } else {
        0
    };
    let ghost d = unsigned_digits(s@);
    assert(d =~= s@.skip(start as int));
    if start == n {
        return None;
    }
    let mut acc: usize = 0;
    let mut i = start;
    assert(d.take(0) =~= Seq::<char>::empty());
    while i < n
        invariant
            start <= i <= n == s.len(),
            start < n,
            d == s@.skip(start as int),
            d == unsigned_digits(s@),
            forall|j: int| 0 <= j < i - start ==> is_digit(#[trigger] d[j]),
            acc == digits_value(d.take(i - start)),
        decreases n - i,
    {
        let c = s[i];
        assert(d[i - start] == c);
        let u = c as u32;
        if u < 48 || u > 57 {
            assert(!is_digit(d[i - start]));
            return None;
        }
        let v: u32 = u - 48;
        assert(d.take(i - start + 1).drop_last() =~= d.take(i - start));
        assert(d.take(i - start + 1).last() == c);
        assert(digits_value(d.take(i - start + 1)) == acc * 10 + v);
        let next = match acc.checked_mul(10) {
            Some(t) => t.checked_add(v as usize),
            None => None,
        };
        match next {
            Some(t) => {
                acc = t;
            },
            None => {
                proof {
                    lemma_digits_value_grows(d, i - start + 1);
                }
                return None;
            },
        }
        i = i + 1;
    }
    assert(d.take(n - start) =~= d);
    Some(acc)
}

// ------------------------------------------------------------------ bytes

/// The number of bytes of the UTF-8 encoding of `c`.
pub open spec fn utf8_width(c: char) -> nat {
    let u = c as u32;
    if u < 0x80 {
        1
    } else if u < 0x800 {
        2
    } else if u < 0x10000 {
        3
    } else {
        4
    }
}

/// The number of bytes of the UTF-8 encoding of `s`.
pub open spec fn utf8_len(s: Seq<char>) -> nat
    decreases s.len(),
{
    if s.len() == 0 {
        0
    } else {
        utf8_len(s.drop_last()) + utf8_width(s.last())
    }
}

/// A longer run of characters takes strictly more bytes.
pub proof fn lemma_utf8_len_grows(s: Seq<char>, a: int, k1: int, k2: int)
    requires
        0 <= a <= k1 <= k2 <= s.len(),
    ensures
        utf8_len(s.subrange(a, k1)) + (k2 - k1) <= utf8_len(s.subrange(a, k2)),
    decreases k2 - k1,
{
    if k1 < k2 {
        assert(s.subrange(a, k2).drop_last() =~= s.subrange(a, k2 - 1));
        lemma_utf8_len_grows(s, a, k1, k2 - 1);
    }
}

/// The number of bytes of the UTF-8 encoding of `c`, as `char::len_utf8` gives it.
pub fn char_width(c: char) -> (w: usize)
    ensures
        w == utf8_width(c),
        1 <= w <= 4,
{
    let u = c as u32;
    if u < 0x80 {
        1
    } else if u < 0x800 {
        2
    } else if u < 0x10000 {
        3
    } else {
        4
    }
}

/// The index `k` such that `s[a..k]` takes exactly `n` bytes in UTF-8, if there is one
/// within `s[a..b]`: the character boundary at byte offset `n` from `a`.
pub fn index_at_byte(s: &Vec<char>, a: usize, b: usize, n: usize) -> (r: Option<usize>)
    requires
        a <= b <= s.len(),
    ensures
        r matches Some(k) ==> a <= k <= b && utf8_len(s@.subrange(a as int, k as int)) == n,
        r is None ==> forall|k: int|
            a <= k <= b ==> #[trigger] utf8_len(s@.subrange(a as int, k)) != n,
{
    assert(s@.subrange(a as int, a as int) =~= Seq::<char>::empty());
    if n == 0 {
        return Some(a);
    }
    let mut acc: usize = 0;
    let mut k = a;
    while k < b
        invariant
            a <= k <= b <= s.len(),
            acc < n,
            acc == utf8_len(s@.subrange(a as int, k as int)),
            forall|j: int| a <= j <= k ==> #[trigger] utf8_len(s@.subrange(a as int, j)) < n,
        decreases b - k,
    {
        let w = char_width(s[k]);
        assert(s@.subrange(a as int, k + 1).drop_last() =~= s@.subrange(a as int, k as int));
        if w > n - acc {
            proof {
                assert forall|j: int| a <= j <= b implies #[trigger] utf8_len(
                    s@.subrange(a as int, j),
                ) != n by {
                    if j > k {
                        lemma_utf8_len_grows(s@, a as int, k + 1, j);
                    }
                }
            }
            return None;
        }
        acc = acc + w;
        k = k + 1;
        if acc == n {
            return Some(k);
        }
    }
    None
}

// ------------------------------------------------------------------ replacing

/// `s` with every non-overlapping occurrence of the non-empty `from`, found from the
/// left, replaced by `to`, as `str::replace` gives it.
pub open spec fn replaced(s: Seq<char>, from: Seq<char>, to: Seq<char>) -> Seq<char>
    decreases s.len(),
{
    if from.len() == 0 || s.len() < from.len() {
        s
    } else if s.take(from.len() as int) == from {
        to + replaced(s.skip(from.len() as int), from, to)
    } else {
        seq![s[0]] + replaced(s.drop_first(), from, to)
    }
}

/// Appends the characters of `t` to `out`.
pub fn push_all(out: &mut Vec<char>, t: &Vec<char>)
    ensures
        final(out)@ == old(out)@ + t@,
{
    let ghost start = out@;
    let mut i: usize = 0;
    while i < t.len()
        invariant
            i <= t.len(),
            out@ == start + t@.take(i as int),
        decreases t.len() - i,
    {
        out.push(t[i]);
        i = i + 1;
        assert(out@ =~= start + t@.take(i as int));
    }
    assert(t@.take(t.len() as int) =~= t@);
}

/// Replaces every occurrence of `from` in `s` by `to`.
pub fn replace_all(s: &Vec<char>, from: &Vec<char>, to: &Vec<char>) -> (r: Vec<char>)
    requires
        from.len() > 0,
    ensures
        r@ == replaced(s@, from@, to@),
{
    let n = s.len();
    let m = from.len();
    let mut out: Vec<char> = Vec::new();
    let mut i: usize = 0;
    assert(s@.skip(0) =~= s@);
    while i < n
        invariant
            i <= n == s.len(),
            m == from.len() > 0,
            replaced(s@, from@, to@) == out@ + replaced(s@.skip(i as int), from@, to@),
        decreases n - i,
    {
        let ghost rest = s@.skip(i as int);
        if m <= n - i && matches_at(s, from, i) {
            assert(rest.take(m as int) =~= s@.subrange(i as int, (i + m) as int));
            assert(rest.skip(m as int) =~= s@.skip((i + m) as int));
            push_all(&mut out, to);
            i = i + m;
        } else {
            if m <= n - i {
                assert(rest.take(m as int) =~= s@.subrange(i as int, (i + m) as int));
            } else {
                assert(s@.skip(i + 1).len() < m);
            }
            assert(rest.drop_first() =~= s@.skip(i + 1));
            assert(seq![rest[0]] + rest.drop_first() =~= rest);
            out.push(s[i]);
            i = i + 1;
        }
    }
    assert(s@.skip(n as int).len() == 0);
    assert(out@ + Seq::<char>::empty() =~= out@);
    out
}


/// Some start of `line` takes exactly `n` bytes in UTF-8: `n` is a character boundary.
pub open spec fn has_byte_boundary(line: Seq<char>, n: nat) -> bool {
    exists|k: int| 0 <= k <= line.len() && #[trigger] utf8_len(line.take(k)) == n
}

/// The number of characters of `line` that take `n` bytes, when `n` is a boundary.
pub open spec fn byte_prefix_index(line: Seq<char>, n: nat) -> int {
    choose|k: int| 0 <= k <= line.len() && #[trigger] utf8_len(line.take(k)) == n
}

/// At a boundary, the chosen start takes the bytes asked for.
pub proof fn lemma_byte_prefix_index(line: Seq<char>, n: nat)
    requires
        has_byte_boundary(line, n),
    ensures
        0 <= byte_prefix_index(line, n) <= line.len(),
        utf8_len(line.take(byte_prefix_index(line, n))) == n,
{
}

/// Only one start of `line` takes exactly `n` bytes.
pub proof fn lemma_byte_boundary_unique(line: Seq<char>, n: nat, k: int)
    requires
        0 <= k <= line.len(),
        utf8_len(line.take(k)) == n,
    ensures
        byte_prefix_index(line, n) == k,
{
    let j = byte_prefix_index(line, n);
    assert(line.take(k) =~= line.subrange(0, k));
    assert(line.take(j) =~= line.subrange(0, j));
    if j < k {
        lemma_utf8_len_grows(line, 0, j, k);
    } else if k < j {
        lemma_utf8_len_grows(line, 0, k, j);
    }
}


/// Counting bytes one character at a time from the front gives the same total.
proof fn lemma_utf8_len_front(s: Seq<char>)
    requires
        s.len() > 0,
    ensures
        utf8_len(s) == utf8_width(s[0]) + utf8_len(s.drop_first()),
    decreases s.len(),
{
    if s.len() > 1 {
        lemma_utf8_len_front(s.drop_last());
        assert(s.drop_last().drop_first() =~= s.drop_first().drop_last());
        assert(s.drop_last()[0] == s[0]);
        assert(s.drop_first().last() == s.last());
        assert(utf8_len(s.drop_first()) == utf8_len(s.drop_first().drop_last()) + utf8_width(
            s.last(),
        ));
    } else {
        assert(s.drop_first().len() == 0);
        assert(s.drop_last().len() == 0);
        assert(utf8_len(s.drop_first()) == 0);
        assert(utf8_len(s.drop_last()) == 0);
        assert(s.last() == s[0]);
    }
}

/// The byte count used for columns is the length of the UTF-8 encoding of the
/// characters, the encoding `str` stores them in.
pub proof fn lemma_utf8_len_is_encoding_len(s: Seq<char>)
    ensures
        utf8_len(s) == vstd::utf8::encode_utf8(s).len(),
    decreases s.len(),
{
    if s.len() > 0 {
        lemma_utf8_len_front(s);
        lemma_utf8_len_is_encoding_len(s.drop_first());
        vstd::utf8::char_is_scalar(s[0]);
    }
}


// ------------------------------------------------------------------ laws of splitting

/// Appending characters that are not the separator lengthens the last piece and
/// nothing else.
pub proof fn lemma_split_on_extend(s: Seq<char>, t: Seq<char>, c: char)
    requires
        forall|i: int| 0 <= i < t.len() ==> t[i] != c,
    ensures
        split_on(s + t, c) == split_on(s, c).update(
            split_on(s, c).len() - 1,
            split_on(s, c).last() + t,
        ),
    decreases t.len(),
{
    lemma_split_on_nonempty(s, c);
    let sp = split_on(s, c);
    if t.len() == 0 {
        assert(s + t =~= s);
        assert(sp.last() + t =~= sp.last());
        assert(sp.update(sp.len() - 1, sp.last()) =~= sp);
    } else {
        let t0 = t.drop_last();
        assert forall|i: int| 0 <= i < t0.len() implies t0[i] != c by {
            assert(t0[i] == t[i]);
        }
        lemma_split_on_extend(s, t0, c);
        assert((s + t).drop_last() =~= s + t0);
        assert((s + t).last() == t.last());
        let prev = split_on(s + t0, c);
        assert(prev.last() =~= sp.last() + t0);
        assert((sp.last() + t0).push(t.last()) =~= sp.last() + t);
        assert(prev.update(prev.len() - 1, prev.last().push(t.last())) =~= sp.update(
            sp.len() - 1,
            sp.last() + t,
        ));
    }
}

/// A separator at the end starts a new, empty piece.
pub proof fn lemma_split_on_separator(s: Seq<char>, c: char)
    ensures
        split_on(s.push(c), c) == split_on(s, c).push(Seq::empty()),
{
    assert(s.push(c).drop_last() =~= s);
}

/// A text that is empty or ends with the separator ends with an empty piece.
pub proof fn lemma_split_on_last_empty(s: Seq<char>, c: char)
    requires
        s.len() == 0 || s.last() == c,
    ensures
        split_on(s, c).last().len() == 0,
{
    if s.len() > 0 {
        lemma_split_on_separator(s.drop_last(), c);
        assert(s.drop_last().push(c) =~= s);
    }
}

/// Appending text keeps every piece but the last of what came before.
pub proof fn lemma_split_on_prefix_stable(s: Seq<char>, t: Seq<char>, c: char)
    ensures
        split_on(s + t, c).len() >= split_on(s, c).len(),
        forall|k: int|
            0 <= k < split_on(s, c).len() - 1 ==> #[trigger] split_on(s + t, c)[k] == split_on(
                s,
                c,
            )[k],
    decreases t.len(),
{
    lemma_split_on_nonempty(s, c);
    if t.len() == 0 {
        assert(s + t =~= s);
    } else {
        let t0 = t.drop_last();
        lemma_split_on_prefix_stable(s, t0, c);
        assert((s + t).drop_last() =~= s + t0);
        lemma_split_on_nonempty(s + t0, c);
    }
}

/// A text without the separator is a single piece.
pub proof fn lemma_split_on_free(t: Seq<char>, c: char)
    requires
        forall|i: int| 0 <= i < t.len() ==> t[i] != c,
    ensures
        split_on(t, c) == seq![t],
{
    lemma_split_on_extend(Seq::empty(), t, c);
    assert(Seq::<char>::empty() + t =~= t);
    assert(Seq::<char>::empty() + t =~= t);
    assert(seq![Seq::<char>::empty()].update(0, Seq::<char>::empty() + t) =~= seq![t]);
}

/// The last line of a text: after a last line feed (or at the start), a line `l`
/// that holds no line feed, followed by one line feed, or by nothing when `l` is not
/// empty. A carriage return ending `l` counts as part of the line ending only when a
/// line feed follows.
pub proof fn lemma_last_line(p: Seq<char>, l: Seq<char>, ending: Seq<char>)
    requires
        p.len() == 0 || p.last() == '\n',
        forall|i: int| 0 <= i < l.len() ==> l[i] != '\n',
        (ending == seq!['\n'] && (l.len() == 0 || l.last() != '\r')) || (ending.len() == 0
            && l.len() > 0),
    ensures
        lines_of(p + l + ending).len() > 0,
        lines_of(p + l + ending).last() == l,
{
    let c = '\n';
    lemma_split_on_nonempty(p, c);
    lemma_split_on_last_empty(p, c);
    lemma_split_on_extend(p, l, c);
    let sp = split_on(p, c);
    let pl = split_on(p + l, c);
    assert(sp.last() + l =~= l);
    assert(pl.last() == l);
    if ending.len() == 0 {
        assert(p + l + ending =~= p + l);
    } else {
        assert(p + l + ending =~= (p + l).push(c));
        lemma_split_on_separator(p + l, c);
        let all = split_on(p + l + ending, c);
        assert(all[all.len() - 2] == l);
    }
}

/// The first line of a text: a line `l` holding no line feed, then a line feed and any
/// rest; a carriage return ending `l` belongs to the line ending.
pub proof fn lemma_first_line(l: Seq<char>, rest: Seq<char>)
    requires
        forall|i: int| 0 <= i < l.len() ==> l[i] != '\n',
        l.len() == 0 || l.last() != '\r',
    ensures
        lines_of(l + seq!['\n'] + rest).len() > 0,
        lines_of(l + seq!['\n'] + rest)[0] == l,
{
    let c = '\n';
    lemma_split_on_free(l, c);
    lemma_split_on_separator(l, c);
    assert(l + seq![c] =~= l.push(c));
    lemma_split_on_prefix_stable(l + seq![c], rest, c);
    let all = split_on(l + seq![c] + rest, c);
    assert(all[0] == l);
}

} // verus!
