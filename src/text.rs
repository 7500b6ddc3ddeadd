use vstd::prelude::*;
use vstd::string::*;

verus! {

broadcast use vstd::string::group_string_axioms;

/// The characters that `char::is_whitespace` accepts (Unicode `White_Space`).
pub open spec fn is_ws(c: char) -> bool {
    let u = c as u32;
    (0x9 <= u <= 0xd) || u == 0x20 || u == 0x85 || u == 0xa0 || u == 0x1680 || (0x2000 <= u
        <= 0x200a) || u == 0x2028 || u == 0x2029 || u == 0x202f || u == 0x205f || u == 0x3000
}

/// Punctuation removed from the end of a heading title.
pub open spec fn is_punct(c: char) -> bool {
    c == '.' || c == '!' || c == '?' || c == '\'' || c == '"' || c == '[' || c == ']' || c
        == '(' || c == ')' || c == '{' || c == '}' || c == ':' || c == ';' || c == '-' || c
        == '_'
}

pub open spec fn has_at(s: Seq<char>, p: Seq<char>, i: int) -> bool {
    0 <= i && i + p.len() <= s.len() && s.subrange(i, i + p.len()) == p
}

pub open spec fn contains(s: Seq<char>, p: Seq<char>) -> bool {
    exists|i: int| has_at(s, p, i)
}

pub open spec fn starts_with(s: Seq<char>, p: Seq<char>) -> bool {
    has_at(s, p, 0)
}

pub open spec fn ends_with(s: Seq<char>, p: Seq<char>) -> bool {
    has_at(s, p, s.len() - p.len())
}

/// The name without its `.md` extension.
pub open spec fn stem(s: Seq<char>) -> Seq<char> {
    if s.len() >= 3 && ends_with(s, ".md"@) {
        s.subrange(0, s.len() - 3)
    } else {
        s
    }
}

pub open spec fn trim_start_hash(s: Seq<char>) -> Seq<char>
    decreases s.len(),
{
    if s.len() > 0 && s[0] == '#' {
        trim_start_hash(s.drop_first())
    } else {
        s
    }
}

pub open spec fn trim_start_ws(s: Seq<char>) -> Seq<char>
    decreases s.len(),
{
    if s.len() > 0 && is_ws(s[0]) {
        trim_start_ws(s.drop_first())
    } else {
        s
    }
}

pub open spec fn trim_end_ws(s: Seq<char>) -> Seq<char>
    decreases s.len(),
{
    if s.len() > 0 && is_ws(s.last()) {
        trim_end_ws(s.drop_last())
    } else {
        s
    }
}

pub open spec fn trim_end_punct(s: Seq<char>) -> Seq<char>
    decreases s.len(),
{
    if s.len() > 0 && is_punct(s.last()) {
        trim_end_punct(s.drop_last())
    } else {
        s
    }
}

/// Number of characters before the first line feed (or the whole length).
pub open spec fn line_len(s: Seq<char>) -> nat
    decreases s.len(),
{
    if s.len() == 0 || s[0] == '\n' {
        0
    } else {
        1 + line_len(s.drop_first())
    }
}

/// The first line as `str::lines` yields it: none for empty text, and a
/// carriage return before the line feed is dropped.
pub open spec fn first_line(s: Seq<char>) -> Option<Seq<char>> {
    let k = line_len(s) as int;
    if s.len() == 0 {
        None
    } else if k < s.len() && k > 0 && s[k - 1] == '\r' {
        Some(s.subrange(0, k - 1))
    } else {
        Some(s.subrange(0, k))
    }
}

/// Title of a heading line: leading `#`s, surrounding whitespace and
/// trailing punctuation removed.
pub open spec fn heading_title(line: Seq<char>) -> Seq<char> {
    trim_end_punct(trim_end_ws(trim_start_ws(trim_start_hash(line))))
}

/// Title of a document from its file name and its text.
pub open spec fn doc_title(name: Seq<char>, content: Seq<char>) -> Seq<char> {
    match first_line(content) {
        Some(line) => if starts_with(line, "# "@) {
            heading_title(line)
        } else {
            stem(name)
        },
        None => stem(name),
    }
}

pub fn has_at_exec(s: &str, p: &str, i: usize) -> (r: bool)
    ensures
        r == has_at(s@, p@, i as int),
{
    let n = s.unicode_len();
    let m = p.unicode_len();
    if m > n || i > n - m {
        return false;
    }
    let mut k: usize = 0;
    while k < m
        invariant
            n == s@.len(),
            m == p@.len(),
            i + m <= n,
            k <= m,
            forall|j: int| 0 <= j < k ==> s@[i + j] == p@[j],
        decreases m - k,
    {
        if s.get_char(i + k) != p.get_char(k) {
            assert(s@.subrange(i as int, i + m)[k as int] != p@[k as int]);
            return false;
        }
        k = k + 1;
    }
    assert(s@.subrange(i as int, i + m) =~= p@);
    true
}

pub fn contains_exec(s: &str, p: &str) -> (r: bool)
    ensures
        r == contains(s@, p@),
{
    let n = s.unicode_len();
    let mut i: usize = 0;
    while i < n
        invariant
            n == s@.len(),
            i <= n,
            forall|j: int| 0 <= j < i ==> !has_at(s@, p@, j),
        decreases n - i,
    {
        if has_at_exec(s, p, i) {
            return true;
        }
        i = i + 1;
    }
    if has_at_exec(s, p, n) {
        return true;
    }
    assert forall|j: int| !has_at(s@, p@, j) by {
        if 0 <= j <= n {
        }
    }
    false
}

pub fn starts_with_exec(s: &str, p: &str) -> (r: bool)
    ensures
        r == starts_with(s@, p@),
{
    let _ = s.unicode_len();
    has_at_exec(s, p, 0)
}

pub fn ends_with_exec(s: &str, p: &str) -> (r: bool)
    ensures
        r == ends_with(s@, p@),
{
    let n = s.unicode_len();
    let m = p.unicode_len();
    if m > n {
        return false;
    }
    has_at_exec(s, p, n - m)
}

pub fn eq_exec(s: &str, p: &str) -> (r: bool)
    ensures
        r == (s@ == p@),
{
    let n = s.unicode_len();
    let m = p.unicode_len();
    if n != m {
        return false;
    }
    let r = has_at_exec(s, p, 0);
    assert(s@.subrange(0, n as int) =~= s@);
    r
}

fn is_ws_exec(c: char) -> (r: bool)
    ensures
        r == is_ws(c),
{
    let u = c as u32;
    (0x9 <= u && u <= 0xd) || u == 0x20 || u == 0x85 || u == 0xa0 || u == 0x1680 || (0x2000
        <= u && u <= 0x200a) || u == 0x2028 || u == 0x2029 || u == 0x202f || u == 0x205f || u
        == 0x3000
}

fn is_punct_exec(c: char) -> (r: bool)
    ensures
        r == is_punct(c),
{
    c == '.' || c == '!' || c == '?' || c == '\'' || c == '"' || c == '[' || c == ']' || c
        == '(' || c == ')' || c == '{' || c == '}' || c == ':' || c == ';' || c == '-' || c
        == '_'
}

/// The file name without its `.md` extension.
pub fn stem_exec(name: &str) -> (r: String)
    ensures
        r@ == stem(name@),
{
    let n = name.unicode_len();
    proof {
        reveal_strlit(".md");
    }
    if n >= 3 && has_at_exec(name, ".md", n - 3) {
        String::from_str(name.substring_char(0, n - 3))
    } else {
        assert(name@.subrange(0, n as int) =~= name@);
        String::from_str(name.substring_char(0, n))
    }
}

/// Index of the first line feed, or the length when there is none.
fn line_len_exec(s: &str) -> (k: usize)
    ensures
        k as nat == line_len(s@),
        k <= s@.len(),
{
    let n = s.unicode_len();
    let mut k: usize = 0;
    assert(s@.subrange(0, n as int) =~= s@);
    while k < n && s.get_char(k) != '\n'
        invariant
            n == s@.len(),
            k <= n,
            line_len(s@) == k + line_len(s@.subrange(k as int, n as int)),
        decreases n - k,
    {
        assert(s@.subrange(k as int, n as int).drop_first() =~= s@.subrange(k + 1, n as int));
        k = k + 1;
    }
    k
}

/// The first line of a text, as `str::lines` gives it.
pub fn first_line_exec(s: &str) -> (r: Option<String>)
    ensures
        match first_line(s@) {
            Some(l) => r is Some && r->0@ == l,
            None => r is None,
        },
{
    let n = s.unicode_len();
    if n == 0 {
        return None;
    }
    let k = line_len_exec(s);
    if k < n && k > 0 && s.get_char(k - 1) == '\r' {
        Some(String::from_str(s.substring_char(0, k - 1)))
    } else {
        Some(String::from_str(s.substring_char(0, k)))
    }
}

/// Title of a heading line.
pub fn heading_title_exec(line: &str) -> (r: String)
    ensures
        r@ == heading_title(line@),
{
    let n = line.unicode_len();
    let mut a: usize = 0;
    assert(line@.subrange(0, n as int) =~= line@);
    while a < n && line.get_char(a) == '#'
        invariant
            n == line@.len(),
            a <= n,
            trim_start_hash(line@.subrange(a as int, n as int)) == trim_start_hash(line@),
        decreases n - a,
    {
        assert(line@.subrange(a as int, n as int).drop_first() =~= line@.subrange(a + 1, n as int));
        a = a + 1;
    }
    let ghost h = line@.subrange(a as int, n as int);
    assert(trim_start_hash(h) == h);
    while a < n && is_ws_exec(line.get_char(a))
        invariant
            n == line@.len(),
            a <= n,
            trim_start_ws(line@.subrange(a as int, n as int)) == trim_start_ws(h),
        decreases n - a,
    {
        assert(line@.subrange(a as int, n as int).drop_first() =~= line@.subrange(a + 1, n as int));
        a = a + 1;
    }
    let ghost w = line@.subrange(a as int, n as int);
    assert(trim_start_ws(w) == w);
    let mut e: usize = n;
    while e > a && is_ws_exec(line.get_char(e - 1))
        invariant
            n == line@.len(),
            a <= e <= n,
            trim_end_ws(line@.subrange(a as int, e as int)) == trim_end_ws(w),
        decreases e,
    {
        assert(line@.subrange(a as int, e as int).drop_last() =~= line@.subrange(a as int, e - 1));
        e = e - 1;
    }
    let ghost v = line@.subrange(a as int, e as int);
    assert(trim_end_ws(v) == v);
    while e > a && is_punct_exec(line.get_char(e - 1))
        invariant
            n == line@.len(),
            a <= e <= n,
            trim_end_punct(line@.subrange(a as int, e as int)) == trim_end_punct(v),
        decreases e,
    {
        assert(line@.subrange(a as int, e as int).drop_last() =~= line@.subrange(a as int, e - 1));
        e = e - 1;
    }
    let ghost u = line@.subrange(a as int, e as int);
    assert(trim_end_punct(u) == u);
    String::from_str(line.substring_char(a, e))
}

/// Title of a document: its heading when the first line is one, else its
/// file name without the extension.
pub fn doc_title_exec(name: &str, content: &str) -> (r: String)
    ensures
        r@ == doc_title(name@, content@),
{
    match first_line_exec(content) {
        Some(line) => {
            if starts_with_exec(line.as_str(), "# ") {
                heading_title_exec(line.as_str())
            } else {
                stem_exec(name)
            }
        },
        None => stem_exec(name),
    }
}

} // verus!
