//! Small operations on text that the rest of the library shares.

use vstd::prelude::*;
use vstd::string::*;

verus! {

/// The text of an optional string.
pub open spec fn opt_text(s: Option<String>) -> Option<Seq<char>> {
    match s {
        Some(s) => Some(s@),
        None => None,
    }
}

/// The texts of a list of strings.
pub open spec fn texts(list: Seq<String>) -> Seq<Seq<char>> {
    list.map_values(|s: String| s@)
}

/// Whether `pattern` stands in `s` at position `i`.
pub open spec fn stands_at(s: Seq<char>, pattern: Seq<char>, i: int) -> bool {
    0 <= i && i + pattern.len() <= s.len() && s.subrange(i, i + pattern.len()) == pattern
}

/// The first position at or after `from` where `pattern` stands in `s`.
pub open spec fn first_at(s: Seq<char>, pattern: Seq<char>, from: int) -> Option<int>
    decreases s.len() as int - from,
{
    if from < 0 || from + pattern.len() > s.len() {
        None
    } else if stands_at(s, pattern, from) {
        Some(from)
    } else if from >= s.len() {
        None
    } else {
        first_at(s, pattern, from + 1)
    }
}

/// The two parts of `s` around the first occurrence of `pattern`.
pub open spec fn split_first(s: Seq<char>, pattern: Seq<char>) -> Option<(Seq<char>, Seq<char>)> {
    match first_at(s, pattern, 0) {
        Some(i) => Some((s.subrange(0, i), s.subrange(i + pattern.len(), s.len() as int))),
        None => None,
    }
}

/// `s` without the characters `c` at its end.
pub open spec fn trimmed_end(s: Seq<char>, c: char) -> Seq<char>
    decreases s.len(),
{
    if s.len() > 0 && s.last() == c {
        trimmed_end(s.drop_last(), c)
    } else {
        s
    }
}

/// Whether `pattern` stands in `s` at position `i`.
pub fn matches_at(s: &str, pattern: &str, i: usize) -> (r: bool)
    requires
        i + pattern@.len() <= s@.len(),
    ensures
        r == stands_at(s@, pattern@, i as int),
{
    let n = pattern.unicode_len();
    let total = s.unicode_len();
    let mut k: usize = 0;
    while k < n
        invariant
            n == pattern@.len(),
            total == s@.len(),
            i + n <= s@.len(),
            k <= n,
            forall|j: int| 0 <= j < k ==> s@[i + j] == pattern@[j],
        decreases n - k,
    {
        if s.get_char(i + k) != pattern.get_char(k) {
            assert(s@.subrange(i as int, i + n)[k as int] != pattern@[k as int]);
            return false;
        }
        k += 1;
    }
    assert(s@.subrange(i as int, i + n) =~= pattern@);
    true
}

/// Splits `s` at the first occurrence of `pattern`.
pub fn split_once(s: &str, pattern: &str) -> (r: Option<(String, String)>)
    ensures
        match r {
            Some((a, b)) => split_first(s@, pattern@) == Some((a@, b@)),
            None => split_first(s@, pattern@) is None,
        },
{
    let n = s.unicode_len();
    let m = pattern.unicode_len();
    if m > n {
        return None;
    }
    let last = n - m;
    let mut i: usize = 0;
    while i < last
        invariant
            n == s@.len(),
            m == pattern@.len(),
            last == n - m,
            i <= last,
            first_at(s@, pattern@, 0) == first_at(s@, pattern@, i as int),
        decreases last - i,
    {
        if matches_at(s, pattern, i) {
            let a = String::from_str(s.substring_char(0, i));
            let b = String::from_str(s.substring_char(i + m, n));
            return Some((a, b));
        }
        i += 1;
    }
    if matches_at(s, pattern, last) {
        let a = String::from_str(s.substring_char(0, last));
        let b = String::from_str(s.substring_char(n, n));
        assert(s@.subrange(last + m, n as int) =~= s@.subrange(n as int, n as int));
        return Some((a, b));
    }
    assert(first_at(s@, pattern@, last as int + 1) is None);
    None
}

/// `s` without the characters `c` at its end.
pub fn trim_end(s: &str, c: char) -> (r: String)
    ensures
        r@ == trimmed_end(s@, c),
{
    let mut n = s.unicode_len();
    assert(s@.take(n as int) =~= s@);
    while n > 0 && s.get_char(n - 1) == c
        invariant
            n <= s@.len(),
            trimmed_end(s@, c) == trimmed_end(s@.take(n as int), c),
        decreases n,
    {
        assert(s@.take(n as int).drop_last() =~= s@.take(n as int - 1));
        n -= 1;
    }
    assert(s@.take(s@.len() as int) =~= s@);
    assert(s@.subrange(0, n as int) =~= s@.take(n as int));
    String::from_str(s.substring_char(0, n))
}

/// Whether two texts are the same.
pub fn str_is(a: &str, b: &str) -> (r: bool)
    ensures
        r == (a@ == b@),
{
    let x = String::from_str(a);
    let y = String::from_str(b);
    x == y
}

/// The text of an optional text.
pub open spec fn opt_str(s: Option<&str>) -> Option<Seq<char>> {
    match s {
        Some(s) => Some(s@),
        None => None,
    }
}

/// Whether `s` is the text `literal`.
pub fn is_text(s: &String, literal: &str) -> (r: bool)
    ensures
        r == (s@ == literal@),
{
    let other = String::from_str(literal);
    *s == other
}

/// First positions are not before where the search starts.
pub proof fn lemma_first_at(s: Seq<char>, pattern: Seq<char>, from: int)
    ensures
        first_at(s, pattern, from) matches Some(i) ==> from <= i && i + pattern.len() <= s.len(),
    decreases s.len() as int - from,
{
    if !(from < 0 || from + pattern.len() > s.len()) && !stands_at(s, pattern, from) && from
        < s.len() {
        lemma_first_at(s, pattern, from + 1);
    }
}

/// The pieces of `s` between the occurrences of `pattern`, in order. An
/// empty pattern splits nothing.
pub open spec fn split_all(s: Seq<char>, pattern: Seq<char>) -> Seq<Seq<char>>
    decreases s.len(),
{
    if pattern.len() == 0 {
        seq![s]
    } else {
        match split_first(s, pattern) {
            Some((head, tail)) => {
                proof {
                    lemma_first_at(s, pattern, 0);
                }
                seq![head] + split_all(tail, pattern)
            },
            None => seq![s],
        }
    }
}

/// Splits `s` at every occurrence of `pattern`.
pub fn split(s: &str, pattern: &str) -> (r: Vec<String>)
    ensures
        texts(r@) == split_all(s@, pattern@),
{
    let mut parts: Vec<String> = Vec::new();
    let mut rest = String::from_str(s);
    if pattern.unicode_len() == 0 {
        parts.push(rest);
        assert(texts(parts@) =~= seq![s@]);
        return parts;
    }
    let mut budget = rest.as_str().unicode_len();
    assert(texts(parts@) =~= Seq::<Seq<char>>::empty());
    assert(Seq::<Seq<char>>::empty() + split_all(rest@, pattern@) =~= split_all(s@, pattern@));
    loop
        invariant
            pattern@.len() > 0,
            budget == rest@.len(),
            split_all(s@, pattern@) == texts(parts@) + split_all(rest@, pattern@),
        decreases budget,
    {
        let ghost done = texts(parts@);
        match split_once(rest.as_str(), pattern) {
            Some((head, tail)) => {
                proof {
                    lemma_first_at(rest@, pattern@, 0);
                }
                parts.push(head);
                assert(texts(parts@) =~= done + seq![head@]);
                assert(done + (seq![head@] + split_all(tail@, pattern@)) =~= done + seq![head@]
                    + split_all(tail@, pattern@));
                rest = tail;
                budget = rest.as_str().unicode_len();
            },
            None => {
                parts.push(rest);
                assert(texts(parts@) =~= done + seq![rest@]);
                return parts;
            },
        }
    }
}

/// The lower-case form of an ASCII capital, any other character as it is.
pub open spec fn lower(c: char) -> char {
    if 'A' <= c <= 'Z' {
        ((c as u32) + 32) as char
    } else {
        c
    }
}

/// Whether two texts are the same but for the case of ASCII letters.
pub open spec fn same_ignoring_case(a: Seq<char>, b: Seq<char>) -> bool {
    a.len() == b.len() && forall|i: int| 0 <= i < a.len() ==> lower(#[trigger] a[i]) == lower(b[i])
}

/// Computes `lower`.
pub fn to_lower(c: char) -> (r: char)
    ensures
        r == lower(c),
{
    match c {
        'A' => 'a',
        'B' => 'b',
        'C' => 'c',
        'D' => 'd',
        'E' => 'e',
        'F' => 'f',
        'G' => 'g',
        'H' => 'h',
        'I' => 'i',
        'J' => 'j',
        'K' => 'k',
        'L' => 'l',
        'M' => 'm',
        'N' => 'n',
        'O' => 'o',
        'P' => 'p',
        'Q' => 'q',
        'R' => 'r',
        'S' => 's',
        'T' => 't',
        'U' => 'u',
        'V' => 'v',
        'W' => 'w',
        'X' => 'x',
        'Y' => 'y',
        'Z' => 'z',
        other => other,
    }
}

/// Tests `same_ignoring_case`.
pub fn eq_ignore_case(a: &str, b: &str) -> (r: bool)
    ensures
        r == same_ignoring_case(a@, b@),
{
    let n = a.unicode_len();
    if n != b.unicode_len() {
        return false;
    }
    let mut i: usize = 0;
    while i < n
        invariant
            n == a@.len(),
            n == b@.len(),
            i <= n,
            forall|j: int| 0 <= j < i ==> lower(#[trigger] a@[j]) == lower(b@[j]),
        decreases n - i,
    {
        if to_lower(a.get_char(i)) != to_lower(b.get_char(i)) {
            return false;
        }
        i += 1;
    }
    true
}

} // verus!
