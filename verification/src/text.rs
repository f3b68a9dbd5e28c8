use vstd::prelude::*;

use crate::ast::{texts, Text};
use vstd::string::StrSliceExecFns;

verus! {

/// The parts separated by `sep`.
pub open spec fn join(parts: Seq<Text>, sep: Text) -> Text
    decreases parts.len(),
{
    if parts.len() == 0 {
        Seq::empty()
    } else if parts.len() == 1 {
        parts[0]
    } else {
        join(parts.drop_last(), sep) + sep + parts.last()
    }
}

/// The first `count` strings of `parts`, separated by `sep`.
pub fn join_first(parts: &Vec<String>, count: usize, sep: &str) -> (r: String)
    requires
        count <= parts@.len(),
    ensures
        r@ == join(texts(parts@).take(count as int), sep@),
{
    let mut r = String::new();
    let mut i: usize = 0;
    while i < count
        invariant
            count <= parts@.len(),
            i <= count,
            r@ == join(texts(parts@).take(i as int), sep@),
        decreases count - i,
    {
        if i > 0 {
            r.append(sep);
        }
        r.append(parts[i].as_str());
        i = i + 1;
        assert(texts(parts@).take(i as int).drop_last() =~= texts(parts@).take(i - 1));
        assert(texts(parts@).take(i as int).last() == parts@[i - 1]@);
    }
    r
}

/// All of `parts`, separated by `sep`.
pub fn join_all(parts: &Vec<String>, sep: &str) -> (r: String)
    ensures
        r@ == join(texts(parts@), sep@),
{
    let r = join_first(parts, parts.len(), sep);
    assert(texts(parts@).take(parts@.len() as int) =~= texts(parts@));
    r
}

/// Whether `names` holds a string equal to `s`.
pub fn contains_string(names: &Vec<String>, s: &String) -> (r: bool)
    ensures
        r == texts(names@).contains(s@),
{
    let mut i: usize = 0;
    while i < names.len()
        invariant
            i <= names@.len(),
            forall|k: int| 0 <= k < i ==> names@[k]@ != s@,
        decreases names@.len() - i,
    {
        if names[i] == *s {
            assert(texts(names@)[i as int] == s@);
            return true;
        }
        i = i + 1;
    }
    assert forall|k: int| 0 <= k < texts(names@).len() implies texts(names@)[k] != s@ by {
        assert(texts(names@)[k] == names@[k]@);
    }
    false
}

/// A copy of the strings in `v`.
pub fn copy_strings(v: &Vec<String>) -> (r: Vec<String>)
    ensures
        texts(r@) == texts(v@),
{
    let mut r: Vec<String> = Vec::new();
    let mut i: usize = 0;
    while i < v.len()
        invariant
            i <= v@.len(),
            r@.len() == i,
            forall|k: int| 0 <= k < i ==> #[trigger] r@[k]@ == v@[k]@,
        decreases v@.len() - i,
    {
        r.push(v[i].clone());
        i = i + 1;
    }
    assert(texts(r@) =~= texts(v@));
    r
}

/// `s` with every occurrence of `pat` taken out, the occurrences found from the
/// left and not overlapping.
pub open spec fn remove_all(s: Text, pat: Text) -> Text
    decreases s.len(),
{
    if pat.len() == 0 || s.len() == 0 {
        s
    } else if pat.len() <= s.len() && s.take(pat.len() as int) == pat {
        remove_all(s.skip(pat.len() as int), pat)
    } else {
        seq![s[0]] + remove_all(s.drop_first(), pat)
    }
}

/// Whether `pat` occurs in `s` at character position `i`.
fn occurs_at(s: &str, pat: &str, i: usize, n: usize, m: usize) -> (r: bool)
    requires
        n == s@.len(),
        m == pat@.len(),
        i <= n,
    ensures
        r == (m <= n - i && s@.subrange(i as int, i + m) == pat@),
{
    if m > n - i {
        return false;
    }
    let mut k: usize = 0;
    while k < m
        invariant
            n == s@.len(),
            m == pat@.len(),
            i + m <= n,
            k <= m,
            forall|j: int| 0 <= j < k ==> s@[i + j] == pat@[j],
        decreases m - k,
    {
        if s.get_char(i + k) != pat.get_char(k) {
            assert(s@.subrange(i as int, i + m)[k as int] != pat@[k as int]);
            return false;
        }
        k = k + 1;
    }
    assert(s@.subrange(i as int, i + m) =~= pat@);
    true
}

/// `s` with every occurrence of `pat` taken out, as `str::replace(s, pat, "")` does.
pub fn remove_occurrences(s: &str, pat: &str) -> (r: String)
    ensures
        r@ == remove_all(s@, pat@),
{
    let n = s.unicode_len();
    let m = pat.unicode_len();
    if m == 0 {
        let mut r = String::new();
        r.append(s);
        return r;
    }
    let mut out = String::new();
    let mut start: usize = 0;
    let mut i: usize = 0;
    assert(s@.skip(0) =~= s@);
    assert(out@ + s@.subrange(0, 0) =~= Seq::<char>::empty());
    while i < n
        invariant
            n == s@.len(),
            m == pat@.len(),
            m > 0,
            start <= i <= n,
            out@ + s@.subrange(start as int, i as int) + remove_all(s@.skip(i as int), pat@) == remove_all(s@, pat@),
        decreases n - i,
    {
        let ghost rest = s@.skip(i as int);
        assert(rest.len() > 0);
        if occurs_at(s, pat, i, n, m) {
            assert(rest.take(m as int) =~= s@.subrange(i as int, i + m));
            assert(rest.skip(m as int) =~= s@.skip(i + m));
            out.append(s.substring_char(start, i));
            i = i + m;
            start = i;
            assert(s@.subrange(start as int, i as int) =~= Seq::<char>::empty());
        } else {
            assert(!(m <= rest.len() && rest.take(m as int) == pat@)) by {
                if m <= rest.len() && rest.take(m as int) == pat@ {
                    assert(rest.take(m as int) =~= s@.subrange(i as int, i + m));
                }
            }
            assert(rest.drop_first() =~= s@.skip(i + 1));
            assert(s@.subrange(start as int, i as int) + seq![rest[0]] =~= s@.subrange(start as int, i + 1));
            i = i + 1;
        }
    }
    assert(s@.skip(n as int) =~= Seq::<char>::empty());
    out.append(s.substring_char(start, n));
    out
}

/// Whether `c` is a double or a single quote.
pub open spec fn is_quote(c: char) -> bool {
    c == '"' || c == '\''
}

/// `s` without the quotes at its start and at its end, as `str::trim_matches`
/// leaves it with quotes as the pattern.
pub open spec fn quotes_trimmed(s: Text) -> Text
    decreases s.len(),
{
    if s.len() > 0 && is_quote(s[0]) {
        quotes_trimmed(s.drop_first())
    } else if s.len() > 0 && is_quote(s.last()) {
        quotes_trimmed(s.drop_last())
    } else {
        s
    }
}

/// `s` without the quotes at its start and at its end.
pub fn trim_quotes(s: &str) -> (r: String)
    ensures
        r@ == quotes_trimmed(s@),
{
    let n = s.unicode_len();
    let mut a: usize = 0;
    assert(s@.subrange(0, n as int) =~= s@);
    while a < n && (s.get_char(a) == '"' || s.get_char(a) == '\'')
        invariant
            n == s@.len(),
            a <= n,
            quotes_trimmed(s@) == quotes_trimmed(s@.subrange(a as int, n as int)),
        decreases n - a,
    {
        assert(s@.subrange(a as int, n as int).drop_first() =~= s@.subrange(a + 1, n as int));
        a = a + 1;
    }
    let mut b: usize = n;
    while b > a && (s.get_char(b - 1) == '"' || s.get_char(b - 1) == '\'')
        invariant
            n == s@.len(),
            a <= b <= n,
            a < n ==> !is_quote(s@[a as int]),
            quotes_trimmed(s@) == quotes_trimmed(s@.subrange(a as int, b as int)),
        decreases b - a,
    {
        let ghost t = s@.subrange(a as int, b as int);
        assert(t[0] == s@[a as int]);
        assert(t.last() == s@[b - 1]);
        assert(t.drop_last() =~= s@.subrange(a as int, b - 1));
        b = b - 1;
    }
    let mut r = String::new();
    r.append(s.substring_char(a, b));
    proof {
        let t = s@.subrange(a as int, b as int);
        if a < b {
            assert(t[0] == s@[a as int]);
            assert(t.last() == s@[b - 1]);
        }
    }
    r
}

/// The pieces of `s` between the occurrences of `sep`, the occurrences found from
/// the left; `cur` is the piece begun before `s`.
pub open spec fn split_rest(s: Text, sep: Text, cur: Text) -> Seq<Text>
    decreases s.len(),
{
    if s.len() == 0 {
        seq![cur]
    } else if 0 < sep.len() <= s.len() && s.take(sep.len() as int) == sep {
        seq![cur] + split_rest(s.skip(sep.len() as int), sep, Seq::empty())
    } else {
        split_rest(s.drop_first(), sep, cur.push(s[0]))
    }
}

/// The pieces of `s` between the occurrences of `sep`, as `str::split` gives them.
pub open spec fn split_on(s: Text, sep: Text) -> Seq<Text> {
    split_rest(s, sep, Seq::empty())
}

/// The pieces of `s` between the occurrences of `sep`.
pub fn split_text(s: &str, sep: &str) -> (r: Vec<String>)
    requires
        sep@.len() > 0,
    ensures
        texts(r@) == split_on(s@, sep@),
{
    let n = s.unicode_len();
    let m = sep.unicode_len();
    let mut out: Vec<String> = Vec::new();
    let mut start: usize = 0;
    let mut i: usize = 0;
    assert(s@.skip(0) =~= s@);
    assert(s@.subrange(0, 0) =~= Seq::<char>::empty());
    while i < n
        invariant
            n == s@.len(),
            m == sep@.len(),
            m > 0,
            start <= i <= n,
            texts(out@) + split_rest(s@.skip(i as int), sep@, s@.subrange(start as int, i as int)) == split_on(s@, sep@),
        decreases n - i,
    {
        let ghost rest = s@.skip(i as int);
        let ghost cur = s@.subrange(start as int, i as int);
        let ghost out0 = out@;
        assert(rest.len() > 0);
        if occurs_at(s, sep, i, n, m) {
            assert(rest.take(m as int) =~= s@.subrange(i as int, i + m));
            assert(rest.skip(m as int) =~= s@.skip(i + m));
            let piece = s.substring_char(start, i);
            out.push(piece.to_owned());
            assert(texts(out@) =~= texts(out0).push(cur));
            i = i + m;
            start = i;
            assert(s@.subrange(start as int, i as int) =~= Seq::<char>::empty());
            assert(texts(out0) + split_rest(rest, sep@, cur) =~= texts(out@) + split_rest(s@.skip(i as int), sep@, Seq::empty()));
        } else {
            assert(!(0 < m <= rest.len() && rest.take(m as int) == sep@)) by {
                if m <= rest.len() && rest.take(m as int) == sep@ {
                    assert(rest.take(m as int) =~= s@.subrange(i as int, i + m));
                }
            }
            assert(rest.drop_first() =~= s@.skip(i + 1));
            assert(cur.push(rest[0]) =~= s@.subrange(start as int, i + 1));
            i = i + 1;
        }
    }
    assert(s@.skip(n as int) =~= Seq::<char>::empty());
    let ghost out0 = out@;
    let piece = s.substring_char(start, n);
    out.push(piece.to_owned());
    assert(texts(out@) =~= texts(out0).push(s@.subrange(start as int, n as int)));
    out
}

// ----- Number literals -----

pub open spec fn is_digit(c: char) -> bool {
    '0' <= c <= '9'
}

/// How many decimal digits `s` begins with.
pub open spec fn lead_digits(s: Text) -> nat
    decreases s.len(),
{
    if s.len() > 0 && is_digit(s[0]) {
        1 + lead_digits(s.drop_first())
    } else {
        0
    }
}

/// `s` without a leading `+` or `-`.
pub open spec fn strip_sign(s: Text) -> Text {
    if s.len() > 0 && (s[0] == '+' || s[0] == '-') {
        s.drop_first()
    } else {
        s
    }
}

/// One or more decimal digits and nothing else.
pub open spec fn all_digits(s: Text) -> bool {
    s.len() > 0 && lead_digits(s) == s.len()
}

/// `e` or `E`, an optional sign, and one or more digits.
pub open spec fn is_exponent(s: Text) -> bool {
    s.len() > 0 && (s[0] == 'e' || s[0] == 'E') && all_digits(strip_sign(s.drop_first()))
}

/// Digits with at most one `.` among them, at least one digit in all, and an
/// optional exponent.
pub open spec fn is_decimal(s: Text) -> bool {
    let a = lead_digits(s);
    let rest = s.skip(a as int);
    if rest.len() > 0 && rest[0] == '.' {
        let frac = rest.drop_first();
        let b = lead_digits(frac);
        a + b >= 1 && (frac.len() == b || is_exponent(frac.skip(b as int)))
    } else {
        a >= 1 && (rest.len() == 0 || is_exponent(rest))
    }
}

pub open spec fn lower_ascii(c: char) -> char {
    if 'A' <= c <= 'Z' {
        ((c as u32) + 32) as char
    } else {
        c
    }
}

/// `s` equals the lower-case ASCII word `w`, letter case aside.
pub open spec fn same_word(s: Text, w: Text) -> bool {
    s.len() == w.len() && forall|i: int| 0 <= i < s.len() ==> #[trigger] lower_ascii(s[i]) == w[i]
}

/// A literal that `f64::from_str` accepts: an optional sign, then `inf`,
/// `infinity` or `nan` in any letter case, or a decimal number.
pub open spec fn float_literal(s: Text) -> bool {
    let t = strip_sign(s);
    is_decimal(t) || same_word(t, "inf"@) || same_word(t, "infinity"@) || same_word(t, "nan"@)
}

/// How many decimal digits `s` holds from position `from` on, before anything else.
fn count_digits(s: &str, from: usize, n: usize) -> (r: usize)
    requires
        n == s@.len(),
        from <= n,
    ensures
        r == lead_digits(s@.skip(from as int)),
        from + r <= n,
{
    let mut i: usize = from;
    let mut going = true;
    while going && i < n
        invariant
            n == s@.len(),
            from <= i <= n,
            going ==> lead_digits(s@.skip(from as int)) == (i - from) + lead_digits(s@.skip(i as int)),
            !going ==> lead_digits(s@.skip(from as int)) == i - from,
        decreases n - i + (if going { 1int } else { 0int }),
    {
        assert(s@.skip(i as int).drop_first() =~= s@.skip(i + 1));
        let c = s.get_char(i);
        if '0' <= c && c <= '9' {
            i = i + 1;
        } else {
            going = false;
        }
    }
    if going {
        assert(s@.skip(i as int) =~= Seq::<char>::empty());
    }
    i - from
}

/// Whether the characters of `s` from `from` on are an exponent.
fn exponent_at(s: &str, at: usize, n: usize) -> (r: bool)
    requires
        n == s@.len(),
        at <= n,
    ensures
        r == is_exponent(s@.skip(at as int)),
{
    if at >= n {
        return false;
    }
    let c = s.get_char(at);
    if c != 'e' && c != 'E' {
        return false;
    }
    let mut j = at + 1;
    assert(s@.skip(at as int).drop_first() =~= s@.skip(j as int));
    if j < n {
        let d = s.get_char(j);
        if d == '+' || d == '-' {
            assert(s@.skip(j as int).drop_first() =~= s@.skip(j + 1));
            j = j + 1;
        }
    }
    assert(strip_sign(s@.skip(at as int).drop_first()) =~= s@.skip(j as int));
    let k = count_digits(s, j, n);
    k > 0 && j + k == n
}

/// Whether the characters of `s` from `from` on are the word `w`, letter case aside.
fn same_word_at(s: &str, from: usize, n: usize, w: &str) -> (r: bool)
    requires
        n == s@.len(),
        from <= n,
        forall|i: int| 0 <= i < w@.len() ==> 'a' <= #[trigger] w@[i] <= 'z',
    ensures
        r == same_word(s@.skip(from as int), w@),
{
    let m = w.unicode_len();
    if n - from != m {
        return false;
    }
    let mut i: usize = 0;
    while i < m
        invariant
            n == s@.len(),
            m == w@.len(),
            n - from == m,
            from <= n,
            i <= m,
            forall|k: int| 0 <= k < w@.len() ==> 'a' <= #[trigger] w@[k] <= 'z',
            forall|k: int| 0 <= k < i ==> #[trigger] lower_ascii(s@.skip(from as int)[k]) == w@[k],
        decreases m - i,
    {
        let c = s.get_char(from + i);
        let wc = w.get_char(i);
        assert(s@.skip(from as int)[i as int] == c);
        let same = if 'A' <= c && c <= 'Z' {
            (c as u32) + 32 == (wc as u32)
        } else {
            c == wc
        };
        if !same {
            assert(lower_ascii(c) != wc);
            return false;
        }
        assert(lower_ascii(c) == wc);
        i = i + 1;
    }
    true
}

/// Whether `f64::from_str` accepts `s`: an optional sign, then `inf`, `infinity`
/// or `nan` in any letter case, or a decimal number.
pub fn is_float_literal(s: &str) -> (r: bool)
    ensures
        r == float_literal(s@),
{
    let n = s.unicode_len();
    let mut p: usize = 0;
    if n > 0 {
        let c = s.get_char(0);
        if c == '+' || c == '-' {
            p = 1;
        }
    }
    assert(s@.skip(p as int) =~= strip_sign(s@));
    let ghost t = s@.skip(p as int);
    proof {
        reveal_strlit("inf");
        reveal_strlit("infinity");
        reveal_strlit("nan");
    }
    let word = same_word_at(s, p, n, "inf") || same_word_at(s, p, n, "infinity") || same_word_at(s, p, n, "nan");
    let a = count_digits(s, p, n);
    let q = p + a;
    assert(t.skip(a as int) =~= s@.skip(q as int));
    let decimal = if q < n && s.get_char(q) == '.' {
        assert(t.skip(a as int).drop_first() =~= s@.skip(q + 1));
        let b = count_digits(s, q + 1, n);
        let e = q + 1 + b;
        assert(s@.skip(q + 1).skip(b as int) =~= s@.skip(e as int));
        a + b >= 1 && (e == n || exponent_at(s, e, n))
    } else {
        a >= 1 && (q == n || exponent_at(s, q, n))
    };
    decimal || word
}

proof fn lemma_join_prepend(a: Text, rest: Seq<Text>, sep: Text)
    requires
        rest.len() >= 1,
    ensures
        join(seq![a] + rest, sep) == a + sep + join(rest, sep),
    decreases rest.len(),
{
    let whole = seq![a] + rest;
    assert(whole.len() >= 2);
    assert(join(whole, sep) == join(whole.drop_last(), sep) + sep + whole.last());
    if rest.len() == 1 {
        assert(whole.drop_last() =~= seq![a]);
        assert(join(seq![a], sep) == a);
        assert(whole.last() == rest[0]);
        assert(join(rest, sep) == rest[0]);
    } else {
        lemma_join_prepend(a, rest.drop_last(), sep);
        assert(whole.drop_last() =~= seq![a] + rest.drop_last());
        assert(whole.last() == rest.last());
        assert(join(rest, sep) == join(rest.drop_last(), sep) + sep + rest.last());
        assert(a + sep + join(rest.drop_last(), sep) + sep + rest.last() =~= a + sep + (join(
            rest.drop_last(),
            sep,
        ) + sep + rest.last()));
    }
}

proof fn lemma_split_rest_nonempty(s: Text, sep: Text, cur: Text)
    ensures
        split_rest(s, sep, cur).len() >= 1,
    decreases s.len(),
{
    if s.len() > 0 {
        if 0 < sep.len() <= s.len() && s.take(sep.len() as int) == sep {
            lemma_split_rest_nonempty(s.skip(sep.len() as int), sep, Seq::empty());
        } else {
            lemma_split_rest_nonempty(s.drop_first(), sep, cur.push(s[0]));
        }
    }
}

proof fn lemma_join_split_rest(s: Text, sep: Text, cur: Text)
    ensures
        join(split_rest(s, sep, cur), sep) == cur + s,
    decreases s.len(),
{
    if s.len() == 0 {
        assert(cur + s =~= cur);
    } else if 0 < sep.len() <= s.len() && s.take(sep.len() as int) == sep {
        let rest = s.skip(sep.len() as int);
        lemma_join_split_rest(rest, sep, Seq::empty());
        lemma_split_rest_nonempty(rest, sep, Seq::empty());
        lemma_join_prepend(cur, split_rest(rest, sep, Seq::empty()), sep);
        assert(Seq::<char>::empty() + rest =~= rest);
        assert(cur + sep + rest =~= cur + s) by {
            assert(s =~= s.take(sep.len() as int) + rest);
        }
    } else {
        lemma_join_split_rest(s.drop_first(), sep, cur.push(s[0]));
        assert(cur.push(s[0]) + s.drop_first() =~= cur + s);
    }
}

/// Splitting a text on a separator and joining the pieces with it gives the text
/// back.
pub proof fn lemma_join_split(s: Text, sep: Text)
    ensures
        join(split_on(s, sep), sep) == s,
{
    lemma_join_split_rest(s, sep, Seq::empty());
    assert(Seq::<char>::empty() + s =~= s);
}

} // verus!
