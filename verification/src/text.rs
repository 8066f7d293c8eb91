//! Text model shared by the whole library: strings are sequences of
//! `char`, and every operation the assistant performs on text (trimming,
//! searching, splitting into lines or paragraphs, joining) is stated here
//! as a spec function over `Seq<char>` and implemented on `Vec<char>`.

use vstd::prelude::*;

verus! {

/// Unicode `White_Space` code points, the set that `char::is_whitespace`
/// and `str::trim` use.
pub open spec fn is_space(c: char) -> bool {
    let u = c as u32;
    ||| 0x9 <= u <= 0xd
    ||| u == 0x20
    ||| u == 0x85
    ||| u == 0xa0
    ||| u == 0x1680
    ||| 0x2000 <= u <= 0x200a
    ||| u == 0x2028
    ||| u == 0x2029
    ||| u == 0x202f
    ||| u == 0x205f
    ||| u == 0x3000
}

/// `s` without its leading white space.
pub open spec fn trim_start(s: Seq<char>) -> Seq<char>
    decreases s.len(),
{
    if s.len() > 0 && is_space(s[0]) {
        trim_start(s.drop_first())
    } else {
        s
    }
}

/// `s` without its trailing white space.
pub open spec fn trim_end(s: Seq<char>) -> Seq<char>
    decreases s.len(),
{
    if s.len() > 0 && is_space(s.last()) {
        trim_end(s.drop_last())
    } else {
        s
    }
}

/// `s` without leading and trailing white space.
pub open spec fn trim(s: Seq<char>) -> Seq<char> {
    trim_end(trim_start(s))
}

/// `p` is a prefix of `s`.
pub open spec fn starts_with(s: Seq<char>, p: Seq<char>) -> bool {
    p.len() <= s.len() && s.subrange(0, p.len() as int) == p
}

/// `p` occurs in `s` at position `i`.
pub open spec fn matches_at(s: Seq<char>, p: Seq<char>, i: int) -> bool {
    0 <= i && i + p.len() <= s.len() && s.subrange(i, i + p.len()) == p
}

/// First position at or after `i` where `p` occurs in `s`.
pub open spec fn find_from(s: Seq<char>, p: Seq<char>, i: int) -> Option<int>
    decreases s.len() + 1 - i,
{
    if i < 0 || i + p.len() > s.len() {
        None
    } else if s.subrange(i, i + p.len()) == p {
        Some(i)
    } else {
        find_from(s, p, i + 1)
    }
}

/// `p` occurs somewhere in `s`.
pub open spec fn contains(s: Seq<char>, p: Seq<char>) -> bool {
    exists|i: int| matches_at(s, p, i)
}

/// Number of bytes of the UTF-8 encoding of `c`.
pub open spec fn utf8_width(c: char) -> nat {
    let u = c as u32;
    if u < 0x80 {
        1
    } else if u < 0x800 {
        2
    } else if u < 0x10000 {
        3
    } else {
        4
    }
}

/// Number of bytes of the UTF-8 encoding of `s`: what `str::len` returns.
pub open spec fn utf8_len(s: Seq<char>) -> nat
    decreases s.len(),
{
    if s.len() == 0 {
        0
    } else {
        utf8_len(s.drop_last()) + utf8_width(s.last())
    }
}

/// The pieces of `parts` with `sep` between each two neighbours.
pub open spec fn join(parts: Seq<Seq<char>>, sep: Seq<char>) -> Seq<char>
    decreases parts.len(),
{
    if parts.len() == 0 {
        Seq::empty()
    } else if parts.len() == 1 {
        parts[0]
    } else {
        join(parts.drop_last(), sep) + sep + parts.last()
    }
}

/// The views of a sequence of character vectors.
pub open spec fn views(v: Seq<Vec<char>>) -> Seq<Seq<char>> {
    v.map_values(|x: Vec<char>| x@)
}

/// The views of a sequence of strings.
pub open spec fn string_views(v: Seq<String>) -> Seq<Seq<char>> {
    v.map_values(|x: String| x@)
}

pub proof fn lemma_utf8_len_concat(a: Seq<char>, b: Seq<char>)
    ensures
        utf8_len(a + b) == utf8_len(a) + utf8_len(b),
    decreases b.len(),
{
    if b.len() == 0 {
        assert(a + b =~= a);
    } else {
        lemma_utf8_len_concat(a, b.drop_last());
        assert((a + b).drop_last() =~= a + b.drop_last());
    }
}

/// Whether `c` is white space.
pub fn is_space_char(c: char) -> (b: bool)
    ensures
        b == is_space(c),
{
    let u = c as u32;
    (0x9 <= u && u <= 0xd) || u == 0x20 || u == 0x85 || u == 0xa0 || u == 0x1680 || (0x2000
        <= u && u <= 0x200a) || u == 0x2028 || u == 0x2029 || u == 0x202f || u == 0x205f || u
        == 0x3000
}

/// Number of UTF-8 bytes of `c`.
pub fn utf8_width_of(c: char) -> (n: usize)
    ensures
        n == utf8_width(c),
{
    let u = c as u32;
    if u < 0x80 {
        1
    } else if u < 0x800 {
        2
    } else if u < 0x10000 {
        3
    } else {
        4
    }
}

/// The UTF-8 length of `v`, or `usize::MAX` where it is larger.
pub fn utf8_len_capped(v: &Vec<char>) -> (n: usize)
    ensures
        n == if utf8_len(v@) > usize::MAX {
            usize::MAX as nat
        } else {
            utf8_len(v@)
        },
{
    let mut acc: usize = 0;
    let mut i: usize = 0;
    while i < v.len()
        invariant
            i <= v@.len(),
            acc == if utf8_len(v@.take(i as int)) > usize::MAX {
                usize::MAX as nat
            } else {
                utf8_len(v@.take(i as int))
            },
        decreases v@.len() - i,
    {
        let w = utf8_width_of(v[i]);
        assert(v@.take(i + 1).drop_last() =~= v@.take(i as int));
        acc = acc.saturating_add(w);
        i = i + 1;
    }
    assert(v@.take(i as int) =~= v@);
    acc
}

/// The characters of `s`.
pub fn chars_of(s: &str) -> (v: Vec<char>)
    ensures
        v@ == s@,
{
    let mut v: Vec<char> = Vec::new();
    for c in it: s.chars()
        invariant
            v@ == it.seq().take(it.index() as int),
    {
        v.push(c);
    }
    v
}


/// `l` without one trailing carriage return.
pub open spec fn strip_cr(l: Seq<char>) -> Seq<char> {
    if l.len() > 0 && l.last() == '\r' {
        l.drop_last()
    } else {
        l
    }
}

/// The lines of `s` from position `start` on, as `str::lines` gives them:
/// split at each `'\n'`, one `'\r'` before it dropped, and no empty last
/// line after a final line break.
pub open spec fn lines_from(s: Seq<char>, start: int) -> Seq<Seq<char>>
    decreases s.len() - start,
{
    if start < 0 || start >= s.len() {
        Seq::empty()
    } else {
        match find_from(s, seq!['\n'], start) {
            Some(i) => {
                proof {
                    lemma_find_from(s, seq!['\n'], start);
                }
                seq![strip_cr(s.subrange(start, i))] + lines_from(s, i + 1)
            },
            None => seq![s.subrange(start, s.len() as int)],
        }
    }
}

/// The lines of `s` (`str::lines`).
pub open spec fn lines(s: Seq<char>) -> Seq<Seq<char>> {
    lines_from(s, 0)
}

/// The pieces of `s` from `start` on between occurrences of the non-empty
/// pattern `p`, matched from left to right without overlap (`str::split`).
pub open spec fn split_from(s: Seq<char>, p: Seq<char>, start: int) -> Seq<Seq<char>>
    decreases s.len() + 1 - start,
{
    if p.len() == 0 || start < 0 || start > s.len() {
        Seq::empty()
    } else {
        match find_from(s, p, start) {
            Some(i) => {
                proof {
                    lemma_find_from(s, p, start);
                }
                seq![s.subrange(start, i)] + split_from(s, p, i + p.len())
            },
            None => seq![s.subrange(start, s.len() as int)],
        }
    }
}

/// `s` split at every occurrence of `p` (`str::split`).
pub open spec fn split(s: Seq<char>, p: Seq<char>) -> Seq<Seq<char>> {
    split_from(s, p, 0)
}

pub proof fn lemma_find_from(s: Seq<char>, p: Seq<char>, i: int)
    requires
        0 <= i,
    ensures
        match find_from(s, p, i) {
            Some(j) => i <= j && matches_at(s, p, j) && forall|k: int|
                i <= k < j ==> !#[trigger] matches_at(s, p, k),
            None => forall|k: int| i <= k ==> !#[trigger] matches_at(s, p, k),
        },
    decreases s.len() + 1 - i,
{
    if i + p.len() > s.len() {
    } else if s.subrange(i, i + p.len()) == p {
    } else {
        lemma_find_from(s, p, i + 1);
    }
}

pub proof fn lemma_contains_find(s: Seq<char>, p: Seq<char>)
    ensures
        contains(s, p) <==> find_from(s, p, 0) is Some,
{
    lemma_find_from(s, p, 0);
    if find_from(s, p, 0) is Some {
        assert(matches_at(s, p, find_from(s, p, 0)->0));
    }
}

/// The characters `v[a..b]`.
pub fn subvec(v: &Vec<char>, a: usize, b: usize) -> (r: Vec<char>)
    requires
        a <= b <= v@.len(),
    ensures
        r@ == v@.subrange(a as int, b as int),
{
    let mut r: Vec<char> = Vec::new();
    let mut i = a;
    while i < b
        invariant
            a <= i <= b <= v@.len(),
            r@ == v@.subrange(a as int, i as int),
        decreases b - i,
    {
        r.push(v[i]);
        i = i + 1;
        assert(r@ =~= v@.subrange(a as int, i as int));
    }
    r
}

/// Appends the characters of `src` to `dst`.
pub fn push_all(dst: &mut Vec<char>, src: &Vec<char>)
    ensures
        final(dst)@ == old(dst)@ + src@,
{
    let mut i: usize = 0;
    while i < src.len()
        invariant
            i <= src@.len(),
            dst@ == old(dst)@ + src@.take(i as int),
        decreases src@.len() - i,
    {
        dst.push(src[i]);
        i = i + 1;
        assert(dst@ =~= old(dst)@ + src@.take(i as int));
    }
    assert(src@.take(i as int) =~= src@);
}

/// Whether `p` occurs in `s` at position `i`.
pub fn matches_at_exec(s: &Vec<char>, p: &Vec<char>, i: usize) -> (b: bool)
    ensures
        b == matches_at(s@, p@, i as int),
{
    let n = s.len();
    if i > n || p.len() > n - i {
        return false;
    }
    let mut k: usize = 0;
    while k < p.len()
        invariant
            n == s@.len(),
            i + p@.len() <= n,
            k <= p@.len(),
            forall|m: int| 0 <= m < k ==> s@[i + m] == p@[m],
        decreases p@.len() - k,
    {
        if s[i + k] != p[k] {
            assert(s@.subrange(i as int, i + p@.len())[k as int] != p@[k as int]);
            return false;
        }
        k = k + 1;
    }
    assert(s@.subrange(i as int, i + p@.len()) =~= p@);
    true
}

/// First position at or after `start` where `p` occurs in `s`.
pub fn find_from_exec(s: &Vec<char>, p: &Vec<char>, start: usize) -> (r: Option<usize>)
    ensures
        match r {
            Some(i) => find_from(s@, p@, start as int) == Some(i as int),
            None => find_from(s@, p@, start as int) is None,
        },
{
    let n = s.len();
    if p.len() > n || start > n - p.len() {
        return None;
    }
    if p.len() == 0 {
        assert(s@.subrange(start as int, start as int) =~= p@);
        return Some(start);
    }
    let last = n - p.len();
    let mut j = start;
    while j <= last
        invariant
            n == s@.len(),
            last + p@.len() == n,
            p@.len() > 0,
            start <= j,
            find_from(s@, p@, start as int) == find_from(s@, p@, j as int),
        decreases s@.len() + 1 - j,
    {
        if matches_at_exec(s, p, j) {
            return Some(j);
        }
        j = j + 1;
    }
    None
}

/// Whether `p` occurs in `s`.
pub fn contains_exec(s: &Vec<char>, p: &Vec<char>) -> (b: bool)
    ensures
        b == contains(s@, p@),
{
    proof {
        lemma_contains_find(s@, p@);
    }
    find_from_exec(s, p, 0).is_some()
}

/// The characters of each string.
pub fn chars_of_all(v: &Vec<String>) -> (r: Vec<Vec<char>>)
    ensures
        views(r@) == string_views(v@),
{
    let mut r: Vec<Vec<char>> = Vec::new();
    let mut i: usize = 0;
    while i < v.len()
        invariant
            i <= v@.len(),
            views(r@) == string_views(v@).take(i as int),
        decreases v@.len() - i,
    {
        let ghost old_r = r@;
        let c = chars_of(v[i].as_str());
        r.push(c);
        assert(views(r@) =~= views(old_r).push(c@));
        i = i + 1;
        assert(views(r@) =~= string_views(v@).take(i as int));
    }
    assert(string_views(v@).take(i as int) =~= string_views(v@));
    r
}

/// The lines of `v` (`str::lines`).
pub fn lines_of(v: &Vec<char>) -> (r: Vec<Vec<char>>)
    ensures
        views(r@) == lines(v@),
{
    let nl: Vec<char> = vec!['\n'];
    assert(nl@ =~= seq!['\n']);
    let mut r: Vec<Vec<char>> = Vec::new();
    let mut start: usize = 0;
    while start < v.len()
        invariant
            nl@ == seq!['\n'],
            start <= v@.len(),
            views(r@) + lines_from(v@, start as int) == lines(v@),
        decreases v@.len() - start,
    {
        match find_from_exec(v, &nl, start) {
            Some(i) => {
                proof {
                    lemma_find_from(v@, seq!['\n'], start as int);
                }
                let mut line = subvec(v, start, i);
                if line.len() > 0 && line[line.len() - 1] == '\r' {
                    line.pop();
                }
                assert(line@ == strip_cr(v@.subrange(start as int, i as int)));
                let ghost old_r = r@;
                r.push(line);
                assert(views(r@) =~= views(old_r).push(line@));
                assert(views(r@) + lines_from(v@, i + 1) =~= views(old_r) + lines_from(
                    v@,
                    start as int,
                ));
                start = i + 1;
            },
            None => {
                let line = subvec(v, start, v.len());
                let ghost old_r = r@;
                r.push(line);
                assert(views(r@) =~= views(old_r).push(line@));
                assert(views(r@) =~= views(old_r) + lines_from(v@, start as int));
                return r;
            },
        }
    }
    assert(views(r@) + lines_from(v@, start as int) =~= views(r@));
    r
}

/// `s` split at every occurrence of the non-empty pattern `p`.
pub fn split_exec(s: &Vec<char>, p: &Vec<char>) -> (r: Vec<Vec<char>>)
    requires
        p@.len() > 0,
    ensures
        views(r@) == split(s@, p@),
{
    let n = s.len();
    let mut r: Vec<Vec<char>> = Vec::new();
    let mut start: usize = 0;
    loop
        invariant
            n == s@.len(),
            p@.len() > 0,
            start <= s@.len(),
            views(r@) + split_from(s@, p@, start as int) == split(s@, p@),
        decreases s@.len() + 1 - start,
    {
        match find_from_exec(s, p, start) {
            Some(i) => {
                proof {
                    lemma_find_from(s@, p@, start as int);
                }
                let piece = subvec(s, start, i);
                let ghost old_r = r@;
                r.push(piece);
                assert(views(r@) =~= views(old_r).push(piece@));
                assert(views(r@) + split_from(s@, p@, i + p@.len()) =~= views(old_r)
                    + split_from(s@, p@, start as int));
                start = i + p.len();
            },
            None => {
                let piece = subvec(s, start, s.len());
                let ghost old_r = r@;
                r.push(piece);
                assert(views(r@) =~= views(old_r).push(piece@));
                assert(views(r@) =~= views(old_r) + split_from(s@, p@, start as int));
                return r;
            },
        }
    }
}

/// The pieces of `parts` with `sep` between neighbours.
pub fn join_exec(parts: &Vec<Vec<char>>, sep: &Vec<char>) -> (r: Vec<char>)
    ensures
        r@ == join(views(parts@), sep@),
{
    let mut r: Vec<char> = Vec::new();
    let mut i: usize = 0;
    while i < parts.len()
        invariant
            i <= parts@.len(),
            r@ == join(views(parts@).take(i as int), sep@),
        decreases parts@.len() - i,
    {
        let ghost before = views(parts@).take(i as int);
        if i > 0 {
            push_all(&mut r, sep);
        }
        push_all(&mut r, &parts[i]);
        i = i + 1;
        proof {
            let now = views(parts@).take(i as int);
            assert(now.drop_last() =~= before);
            if i == 1 {
                assert(r@ =~= now[0]);
            }
        }
    }
    assert(views(parts@).take(i as int) =~= views(parts@));
    r
}

/// `v` without leading white space.
pub fn trim_start_exec(v: &Vec<char>) -> (r: Vec<char>)
    ensures
        r@ == trim_start(v@),
{
    let mut i: usize = 0;
    assert(v@.subrange(0, v@.len() as int) =~= v@);
    while i < v.len() && is_space_char(v[i])
        invariant
            i <= v@.len(),
            trim_start(v@) == trim_start(v@.subrange(i as int, v@.len() as int)),
        decreases v@.len() - i,
    {
        assert(v@.subrange(i as int, v@.len() as int).drop_first() =~= v@.subrange(
            i + 1,
            v@.len() as int,
        ));
        i = i + 1;
    }
    subvec(v, i, v.len())
}

/// `v` without leading and trailing white space.
pub fn trim_exec(v: &Vec<char>) -> (r: Vec<char>)
    ensures
        r@ == trim(v@),
{
    let t = trim_start_exec(v);
    let mut j: usize = t.len();
    assert(t@.subrange(0, j as int) =~= t@);
    while j > 0 && is_space_char(t[j - 1])
        invariant
            j <= t@.len(),
            trim_end(t@) == trim_end(t@.subrange(0, j as int)),
        decreases j,
    {
        assert(t@.subrange(0, j as int).drop_last() =~= t@.subrange(0, j - 1));
        j = j - 1;
    }
    subvec(&t, 0, j)
}

/// `true` when `p` is a prefix of `s`.
pub fn starts_with_exec(s: &Vec<char>, p: &Vec<char>) -> (b: bool)
    ensures
        b == starts_with(s@, p@),
{
    matches_at_exec(s, p, 0)
}

/// The string whose characters are `v` (`String: FromIterator<char>`).
#[verifier::external_body]
pub fn string_of(v: &Vec<char>) -> (s: String)
    ensures
        s@ == v@,
{
    v.iter().collect()
}


/// Whether `a` and `b` hold the same characters.
pub fn chars_eq(a: &Vec<char>, b: &Vec<char>) -> (r: bool)
    ensures
        r == (a@ == b@),
{
    if a.len() != b.len() {
        return false;
    }
    let mut i: usize = 0;
    while i < a.len()
        invariant
            a@.len() == b@.len(),
            i <= a@.len(),
            forall|k: int| 0 <= k < i ==> a@[k] == b@[k],
        decreases a@.len() - i,
    {
        if a[i] != b[i] {
            return false;
        }
        i = i + 1;
    }
    assert(a@ =~= b@);
    true
}

/// Whether two strings hold the same characters.
pub fn str_eq(a: &str, b: &str) -> (r: bool)
    ensures
        r == (a@ == b@),
{
    chars_eq(&chars_of(a), &chars_of(b))
}

/// `c` in lower case where it is an ASCII capital letter.
pub open spec fn lower_char(c: char) -> char {
    if 'A' <= c <= 'Z' {
        ((c as u32) + 32) as char
    } else {
        c
    }
}

/// `s` with its ASCII capital letters in lower case
/// (`str::to_ascii_lowercase`).
pub open spec fn ascii_lower(s: Seq<char>) -> Seq<char> {
    s.map_values(|c: char| lower_char(c))
}

/// `c` in lower case where it is an ASCII capital letter.
pub fn lower_char_exec(c: char) -> (r: char)
    ensures
        r == lower_char(c),
{
    if 'A' <= c && c <= 'Z' {
        let u = (c as u8) + 32;
        let r = u as char;
        assert(r == ((c as u32) + 32) as char) by {
            assert(c as u8 == c as u32);
        }
        r
    } else {
        c
    }
}

/// `v` with its ASCII capital letters in lower case.
pub fn ascii_lower_exec(v: &Vec<char>) -> (r: Vec<char>)
    ensures
        r@ == ascii_lower(v@),
{
    let mut r: Vec<char> = Vec::new();
    let mut i: usize = 0;
    while i < v.len()
        invariant
            i <= v@.len(),
            r@ == ascii_lower(v@.take(i as int)),
        decreases v@.len() - i,
    {
        r.push(lower_char_exec(v[i]));
        i = i + 1;
        assert(r@ =~= ascii_lower(v@.take(i as int)));
    }
    assert(v@.take(i as int) =~= v@);
    r
}

/// Whether `c` is an ASCII decimal digit.
pub open spec fn is_digit(c: char) -> bool {
    '0' <= c <= '9'
}

/// Whether every character of `s` is a decimal digit.
pub open spec fn all_digits(s: Seq<char>) -> bool {
    forall|i: int| 0 <= i < s.len() ==> is_digit(#[trigger] s[i])
}

/// The value of the decimal digits `s`.
pub open spec fn digits_value(s: Seq<char>) -> nat
    decreases s.len(),
{
    if s.len() == 0 {
        0
    } else {
        digits_value(s.drop_last()) * 10 + ((s.last() as u32) - 48) as nat
    }
}

/// `str::parse::<u16>`: an optional `'+'`, then one or more decimal
/// digits whose value fits in a `u16`.
pub open spec fn parse_u16_spec(s: Seq<char>) -> Option<u16> {
    let d = if s.len() > 0 && s[0] == '+' {
        s.drop_first()
    } else {
        s
    };
    if d.len() > 0 && all_digits(d) && digits_value(d) <= u16::MAX {
        Some(digits_value(d) as u16)
    } else {
        None
    }
}

/// The `u16` written in `s`, if it is one.
pub fn parse_u16(s: &str) -> (r: Option<u16>)
    ensures
        r == parse_u16_spec(s@),
{
    let v = chars_of(s);
    let start: usize = if v.len() > 0 && v[0] == '+' {
        1
    } else {
        0
    };
    let ghost d = if v@.len() > 0 && v@[0] == '+' {
        v@.drop_first()
    } else {
        v@
    };
    assert(d =~= v@.subrange(start as int, v@.len() as int));
    if start == v.len() {
        return None;
    }
    let mut acc: u32 = 0;
    let mut i: usize = start;
    while i < v.len()
        invariant
            start <= i <= v@.len(),
            v@ == s@,
            d == (if v@.len() > 0 && v@[0] == '+' {
                v@.drop_first()
            } else {
                v@
            }),
            d == v@.subrange(start as int, v@.len() as int),
            forall|k: int| 0 <= k < i - start ==> is_digit(#[trigger] d[k]),
            acc == if digits_value(d.take(i - start)) > 65536 {
                65536
            } else {
                digits_value(d.take(i - start))
            },
        decreases v@.len() - i,
    {
        let c = v[i];
        assert(d[i - start] == c);
        if !('0' <= c && c <= '9') {
            assert(!is_digit(d[i - start]));
            assert(!all_digits(d));
            return None;
        }
        let dv = (c as u32) - 48;
        assert(d.take(i + 1 - start).drop_last() =~= d.take(i - start));
        let next = acc * 10 + dv;
        acc = if next > 65536 {
            65536
        } else {
            next
        };
        i = i + 1;
    }
    assert(d.take(i - start) =~= d);
    if acc <= 65535 {
        Some(acc as u16)
    } else {
        None
    }
}

pub proof fn lemma_join_push(s: Seq<Seq<char>>, x: Seq<char>, sep: Seq<char>)
    ensures
        join(s.push(x), sep) == if s.len() == 0 {
            x
        } else {
            join(s, sep) + sep + x
        },
{
    assert(s.push(x).drop_last() =~= s);
}

pub proof fn lemma_join_prepend(a: Seq<char>, r: Seq<Seq<char>>, sep: Seq<char>)
    requires
        r.len() > 0,
    ensures
        join(seq![a] + r, sep) == a + sep + join(r, sep),
    decreases r.len(),
{
    let whole = seq![a] + r;
    assert(whole.drop_last() =~= seq![a] + r.drop_last());
    if r.len() == 1 {
        assert(seq![a] + r.drop_last() =~= seq![a]);
        assert(join(seq![a], sep) == a);
    } else {
        lemma_join_prepend(a, r.drop_last(), sep);
        assert(a + sep + join(r.drop_last(), sep) + sep + r.last() =~= a + sep + (join(
            r.drop_last(),
            sep,
        ) + sep + r.last()));
    }
}

pub proof fn lemma_split_from_nonempty(s: Seq<char>, p: Seq<char>, start: int)
    requires
        p.len() > 0,
        0 <= start <= s.len(),
    ensures
        split_from(s, p, start).len() > 0,
{
    lemma_find_from(s, p, start);
}

pub proof fn lemma_join_split_from(s: Seq<char>, p: Seq<char>, start: int)
    requires
        p.len() > 0,
        0 <= start <= s.len(),
    ensures
        join(split_from(s, p, start), p) == s.subrange(start, s.len() as int),
    decreases s.len() + 1 - start,
{
    lemma_find_from(s, p, start);
    match find_from(s, p, start) {
        Some(i) => {
            let rest = split_from(s, p, i + p.len());
            lemma_join_split_from(s, p, i + p.len());
            lemma_split_from_nonempty(s, p, i + p.len());
            lemma_join_prepend(s.subrange(start, i), rest, p);
            assert(s.subrange(start, i) + p + s.subrange(i + p.len(), s.len() as int)
                =~= s.subrange(start, s.len() as int));
        },
        None => {
            assert(join(seq![s.subrange(start, s.len() as int)], p) == s.subrange(
                start,
                s.len() as int,
            ));
        },
    }
}

/// Joining the pieces of a split with its pattern gives back the text.
pub proof fn lemma_join_split(s: Seq<char>, p: Seq<char>)
    requires
        p.len() > 0,
    ensures
        join(split(s, p), p) == s,
        split(s, p).len() > 0,
{
    lemma_join_split_from(s, p, 0);
    lemma_split_from_nonempty(s, p, 0);
    assert(s.subrange(0, s.len() as int) =~= s);
}

/// The byte lengths that the chunker compares are those of the UTF-8
/// encoding, that is what `str::len` returns.
pub proof fn law_utf8_len_is_encoded_length(s: Seq<char>)
    requires
        forall|i: int| 0 <= i < s.len() ==> vstd::utf8::is_scalar(#[trigger] s[i] as u32),
    ensures
        utf8_len(s) == vstd::utf8::encode_utf8(s).len(),
    decreases s.len(),
{
    if s.len() > 0 {
        lemma_utf8_len_concat(seq![s[0]], s.drop_first());
        assert(seq![s[0]] + s.drop_first() =~= s);
        assert(seq![s[0]].drop_last() =~= Seq::<char>::empty());
        assert(utf8_len(Seq::<char>::empty()) == 0);
        assert(seq![s[0]].last() == s[0]);
        assert(utf8_len(seq![s[0]]) == utf8_width(s[0]));
        assert forall|i: int| 0 <= i < s.drop_first().len() implies vstd::utf8::is_scalar(
            #[trigger] s.drop_first()[i] as u32,
        ) by {
            assert(s.drop_first()[i] == s[i + 1]);
        }
        assert(vstd::utf8::is_scalar(s[0] as u32));
        assert(vstd::utf8::encode_scalar(s[0] as u32).len() == utf8_width(s[0]));
        law_utf8_len_is_encoded_length(s.drop_first());
    }
}
} // verus!
