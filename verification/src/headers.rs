//! Header-line parsing for the transport layer.
//!
//! A header block is a run of lines, ended by the first empty line. Each
//! line holds a name before its first `':'` and a value between the first
//! and second `':'` (or the end of the line), both trimmed of surrounding
//! ASCII whitespace. The block is read as a map from names to values in
//! which the last occurrence of a name wins.

use vstd::prelude::*;

verus! {

/// ASCII whitespace, as trimmed from header names and values. Header lines
/// on the wire are ASCII, so trimming deliberately stops at these four
/// characters and leaves any other Unicode whitespace in place.
pub open spec fn is_space(c: char) -> bool {
    c == ' ' || c == '\t' || c == '\r' || c == '\n'
}

/// The number of characters before the first `':'` of `s` (the length of
/// `s` when it has none).
pub open spec fn first_colon(s: Seq<char>) -> nat
    decreases s.len(),
{
    if s.len() == 0 {
        0
    } else if s[0] == ':' {
        0
    } else {
        1 + first_colon(s.skip(1))
    }
}

/// `s` without its leading whitespace.
pub open spec fn trim_front(s: Seq<char>) -> Seq<char>
    decreases s.len(),
{
    if s.len() > 0 && is_space(s[0]) {
        trim_front(s.skip(1))
    } else {
        s
    }
}

/// `s` without its trailing whitespace.
pub open spec fn trim_back(s: Seq<char>) -> Seq<char>
    decreases s.len(),
{
    if s.len() > 0 && is_space(s[s.len() - 1]) {
        trim_back(s.take(s.len() - 1))
    } else {
        s
    }
}

/// `s` without its surrounding whitespace.
pub open spec fn trim_spec(s: Seq<char>) -> Seq<char> {
    trim_back(trim_front(s))
}

/// The name a header line carries: what stands before its first `':'`,
/// trimmed.
pub open spec fn header_name(line: Seq<char>) -> Seq<char> {
    trim_spec(line.take(first_colon(line) as int))
}

/// The value a header line carries: what stands between its first and second
/// `':'` (or the end of the line), trimmed.
pub open spec fn header_value(line: Seq<char>) -> Seq<char> {
    let rest = line.skip(first_colon(line) as int + 1);
    trim_spec(rest.take(first_colon(rest) as int))
}

/// Whether every line from index `i` up to the first empty one carries a
/// `':'`.
pub open spec fn lines_ok(lines: Seq<Seq<char>>, i: int) -> bool
    decreases lines.len() - i
        when i <= lines.len()
{
    i >= lines.len() || lines[i].len() == 0 || (first_colon(lines[i]) < lines[i].len() && lines_ok(
        lines,
        i + 1,
    ))
}

/// The map the header block starting at line `i` denotes: lines are read
/// until the first empty one, and the last occurrence of a name wins.
pub open spec fn headers_map(lines: Seq<Seq<char>>, i: int) -> Map<Seq<char>, Seq<char>>
    decreases lines.len() - i
        when i <= lines.len()
{
    if i < 0 || i >= lines.len() || lines[i].len() == 0 {
        Map::empty()
    } else {
        let rest = headers_map(lines, i + 1);
        if rest.contains_key(header_name(lines[i])) {
            rest
        } else {
            rest.insert(header_name(lines[i]), header_value(lines[i]))
        }
    }
}

/// `first_colon` is the unique index with no `':'` before it and a `':'`
/// (or the end of `s`) at it.
proof fn lemma_first_colon_at(s: Seq<char>, f: int)
    requires
        0 <= f <= s.len(),
        forall|j: int| 0 <= j < f ==> s[j] != ':',
        f < s.len() ==> s[f] == ':',
    ensures
        first_colon(s) == f,
    decreases s.len(),
{
    if f > 0 {
        lemma_first_colon_at(s.skip(1), f - 1);
    }
}

/// `trim_front` drops exactly the run of leading whitespace.
proof fn lemma_trim_front_at(s: Seq<char>, a: int)
    requires
        0 <= a <= s.len(),
        forall|j: int| 0 <= j < a ==> is_space(#[trigger] s[j]),
        a < s.len() ==> !is_space(s[a]),
    ensures
        trim_front(s) == s.skip(a),
    decreases s.len(),
{
    if a == 0 {
        assert(s.skip(0) =~= s);
    } else {
        lemma_trim_front_at(s.skip(1), a - 1);
        assert(s.skip(1).skip(a - 1) =~= s.skip(a));
    }
}

/// `trim_back` drops exactly the run of trailing whitespace.
proof fn lemma_trim_back_at(s: Seq<char>, b: int)
    requires
        0 <= b <= s.len(),
        forall|j: int| b <= j < s.len() ==> is_space(#[trigger] s[j]),
        b > 0 ==> !is_space(s[b - 1]),
    ensures
        trim_back(s) == s.take(b),
    decreases s.len(),
{
    if b == s.len() {
        assert(s.take(b) =~= s);
    } else {
        lemma_trim_back_at(s.take(s.len() - 1), b);
    }
}

/// Tests a character for ASCII whitespace.
fn is_space_char(c: char) -> (r: bool)
    ensures
        r == is_space(c),
{
    c == ' ' || c == '\t' || c == '\r' || c == '\n'
}

/// Finds the first `':'` of `s`, or its end when it has none.
fn first_colon_idx(s: &str) -> (f: usize)
    ensures
        f as nat == first_colon(s@),
        f <= s@.len(),
{
    let len = s.unicode_len();
    let mut j: usize = 0;
    while j < len && s.get_char(j) != ':'
        invariant
            len == s@.len(),
            j <= len,
            forall|t: int| 0 <= t < j ==> s@[t] != ':',
        decreases len - j,
    {
        j = j + 1;
    }
    proof {
        lemma_first_colon_at(s@, j as int);
    }
    j
}

/// Removes the whitespace around `s`.
fn trim_str(s: &str) -> (r: String)
    ensures
        r@ == trim_spec(s@),
{
    let len = s.unicode_len();
    let mut a: usize = 0;
    while a < len && is_space_char(s.get_char(a))
        invariant
            len == s@.len(),
            a <= len,
            forall|t: int| 0 <= t < a ==> is_space(#[trigger] s@[t]),
        decreases len - a,
    {
        a = a + 1;
    }
    proof {
        lemma_trim_front_at(s@, a as int);
    }
    let mut b: usize = len;
    while b > a && is_space_char(s.get_char(b - 1))
        invariant
            len == s@.len(),
            a <= b <= len,
            forall|t: int| b <= t < len ==> is_space(#[trigger] s@[t]),
        decreases b,
    {
        b = b - 1;
    }
    proof {
        let front = s@.skip(a as int);
        assert(forall|j: int|
            b - a <= j < front.len() ==> is_space(#[trigger] front[j]) == is_space(s@[j + a]));
        if b > a {
            assert(front[b - a - 1] == s@[b - 1]);
        }
        lemma_trim_back_at(front, b - a);
        assert(front.take(b - a) =~= s@.subrange(a as int, b as int));
    }
    let r = s.substring_char(a, b).to_owned();
    r
}

/// Parses the header block starting at line `i`.
fn parse_headers_from(lines: &Vec<String>, i: usize) -> (r: Vec<(String, String)>)
    requires
        i <= lines@.len(),
        lines_ok(lines.deep_view(), i as int),
    ensures
        forall|t1: int, t2: int|
            0 <= t1 < t2 < r@.len() ==> (#[trigger] r@[t1]).0@ != (#[trigger] r@[t2]).0@,
        forall|t: int|
            0 <= t < r@.len() ==> headers_map(lines.deep_view(), i as int).contains_key(
                (#[trigger] r@[t]).0@,
            ) && headers_map(lines.deep_view(), i as int)[r@[t].0@] == r@[t].1@,
        forall|k: Seq<char>|
            headers_map(lines.deep_view(), i as int).contains_key(k) ==> exists|t: int|
                0 <= t < r@.len() && (#[trigger] r@[t]).0@ == k,
    decreases lines@.len() - i,
{
    let ghost lv = lines.deep_view();
    proof {
        assert(forall|t: int| 0 <= t < lines@.len() ==> lv[t] == (#[trigger] lines@[t])@);
    }
    let line_count = lines.len();
    if i == line_count {
        return Vec::new();
    }
    let line_len = lines[i].unicode_len();
    if line_len == 0 {
        return Vec::new();
    }
    let line = &lines[i];
    let f = first_colon_idx(line.as_str());
    proof {
        assert(f < line_len);
    }
    let name = trim_str(line.as_str().substring_char(0, f));
    let rest = line.as_str().substring_char(f + 1, line_len);
    let f2 = first_colon_idx(rest);
    let value = trim_str(rest.substring_char(0, f2));
    proof {
        assert(line@.take(first_colon(line@) as int) == line@.subrange(0, f as int));
        assert(rest@ == line@.skip(f as int + 1));
        assert(rest@.take(first_colon(rest@) as int) == rest@.subrange(0, f2 as int));
        assert(name@ == header_name(lv[i as int]));
        assert(value@ == header_value(lv[i as int]));
    }
    let mut r = parse_headers_from(lines, i + 1);
    let n = r.len();
    let mut idx: usize = 0;
    let mut present: bool = false;
    while idx < n && !present
        invariant
            n == r@.len(),
            idx <= n,
            present ==> idx < n && r@[idx as int].0@ == name@,
            !present ==> forall|t: int| 0 <= t < idx ==> (#[trigger] r@[t]).0@ != name@,
        decreases n - idx + (if present {
            0int
        } else {
            1int
        }),
    {
        if r[idx].0.eq(&name) {
            present = true;
        } else {
            idx = idx + 1;
        }
    }
    let ghost restmap = headers_map(lv, i as int + 1);
    proof {
        if present {
            assert(restmap.contains_key(name@));
        } else {
            assert(!restmap.contains_key(name@)) by {
                if restmap.contains_key(name@) {
                    let t = choose|t: int| 0 <= t < r@.len() && (#[trigger] r@[t]).0@ == name@;
                    assert(r@[t].0@ != name@);
                }
            }
        }
        assert(headers_map(lv, i as int) == (if restmap.contains_key(name@) {
            restmap
        } else {
            restmap.insert(name@, value@)
        }));
    }
    if !present {
        let ghost oldr = r@;
        r.push((name, value));
        proof {
            assert(forall|t: int| 0 <= t < oldr.len() ==> r@[t] == #[trigger] oldr[t]);
            assert(forall|t: int|
                0 <= t < r@.len() - 1 ==> headers_map(lv, i as int).contains_key(
                    (#[trigger] r@[t]).0@,
                ) && headers_map(lv, i as int)[r@[t].0@] == r@[t].1@);
            assert(r@[r@.len() - 1].0@ == name@ && r@[r@.len() - 1].1@ == value@);
            assert forall|k: Seq<char>|
                headers_map(lv, i as int).contains_key(k) implies exists|t: int|
                0 <= t < r@.len() && (#[trigger] r@[t]).0@ == k by {
                if k == name@ {
                    assert(r@[r@.len() - 1].0@ == k);
                } else {
                    assert(restmap.contains_key(k));
                    let t = choose|t: int| 0 <= t < oldr.len() && (#[trigger] oldr[t]).0@ == k;
                    assert(r@[t].0@ == k);
                }
            }
        }
    }
    r
}

/// Reads a header block: one `(name, value)` pair per header line, cut at
/// the first empty line, names unique, the last occurrence of a name
/// winning. Every line before the first empty one must carry a `':'`.
pub fn parse_headers(lines: &Vec<String>) -> (r: Vec<(String, String)>)
    requires
        lines_ok(lines.deep_view(), 0),
    ensures
        forall|t1: int, t2: int|
            0 <= t1 < t2 < r@.len() ==> (#[trigger] r@[t1]).0@ != (#[trigger] r@[t2]).0@,
        forall|t: int|
            0 <= t < r@.len() ==> headers_map(lines.deep_view(), 0).contains_key(
                (#[trigger] r@[t]).0@,
            ) && headers_map(lines.deep_view(), 0)[r@[t].0@] == r@[t].1@,
        forall|k: Seq<char>|
            headers_map(lines.deep_view(), 0).contains_key(k) ==> exists|t: int|
                0 <= t < r@.len() && (#[trigger] r@[t]).0@ == k,
{
    parse_headers_from(lines, 0)
}

} // verus!
