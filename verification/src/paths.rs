//! Dotted index paths: a raw string such as `2.1.3` is split on `.` and
//! each segment read as a positive decimal integer, then shifted to the
//! 0-based indices the tree works with. Any other segment makes the whole
//! path invalid.

use vstd::prelude::*;

verus! {

/// The decimal value of a digit character; ten for anything else.
pub open spec fn digit_val(c: char) -> nat {
    if c == '0' {
        0
    } else if c == '1' {
        1
    } else if c == '2' {
        2
    } else if c == '3' {
        3
    } else if c == '4' {
        4
    } else if c == '5' {
        5
    } else if c == '6' {
        6
    } else if c == '7' {
        7
    } else if c == '8' {
        8
    } else if c == '9' {
        9
    } else {
        10
    }
}

pub open spec fn is_digit_char(c: char) -> bool {
    digit_val(c) < 10
}

/// The number a run of digit characters denotes, most significant first.
pub open spec fn seg_val(s: Seq<char>) -> nat
    decreases s.len(),
{
    if s.len() == 0 {
        0
    } else {
        seg_val(s.drop_last()) * 10 + digit_val(s.last())
    }
}

pub open spec fn all_digits(s: Seq<char>) -> bool {
    forall|i: int| 0 <= i < s.len() ==> is_digit_char(s[i])
}

/// A well-formed path segment: at least one character, digits only, and a
/// positive value that fits the machine's indices.
pub open spec fn seg_ok(s: Seq<char>) -> bool {
    s.len() > 0 && all_digits(s) && 1 <= seg_val(s) <= usize::MAX
}

/// The position of the first `.`, or the length when there is none.
pub open spec fn dot_idx(s: Seq<char>) -> nat
    decreases s.len(),
{
    if s.len() == 0 {
        0
    } else if s[0] == '.' {
        0
    } else {
        1 + dot_idx(s.subrange(1, s.len() as int))
    }
}

/// What a raw dotted path denotes: the 0-based index for every segment,
/// or nothing as soon as one segment is not a well-formed positive
/// number.
pub open spec fn parse_path(s: Seq<char>) -> Option<Seq<usize>>
    decreases s.len(),
{
    let d = dot_idx(s) as int;
    if d >= s.len() {
        if seg_ok(s) {
            Some(seq![(seg_val(s) - 1) as usize])
        } else {
            None
        }
    } else {
        let seg = s.take(d);
        if seg_ok(seg) {
            match parse_path(s.skip(d + 1)) {
                Some(rest) => Some(seq![(seg_val(seg) - 1) as usize] + rest),
                None => None,
            }
        } else {
            None
        }
    }
}

proof fn lemma_dot_idx_at(s: Seq<char>, m: int)
    requires
        0 <= m <= s.len(),
        forall|j: int| 0 <= j < m ==> s[j] != '.',
        m == s.len() || s[m] == '.',
    ensures
        dot_idx(s) == m,
    decreases s.len(),
{
    if s.len() == 0 {
    } else if s[0] == '.' {
    } else {
        let rest = s.subrange(1, s.len() as int);
        assert(forall|j: int| 0 <= j < m - 1 ==> rest[j] == s[j + 1]);
        lemma_dot_idx_at(rest, m - 1);
    }
}

proof fn lemma_seg_val_mono(s: Seq<char>, j: int, k: int)
    requires
        0 <= j <= k <= s.len(),
    ensures
        seg_val(s.take(j)) <= seg_val(s.take(k)),
    decreases k - j,
{
    if j < k {
        lemma_seg_val_mono(s, j, k - 1);
        assert(s.take(k).drop_last() =~= s.take(k - 1));
    }
}

/// The digit a character stands for, if any.
fn char_digit(c: char) -> (d: Option<usize>)
    ensures
        d is Some ==> is_digit_char(c) && d.unwrap() == digit_val(c),
        d is None ==> !is_digit_char(c),
{
    if c == '0' {
        Some(0)
    } else if c == '1' {
        Some(1)
    } else if c == '2' {
        Some(2)
    } else if c == '3' {
        Some(3)
    } else if c == '4' {
        Some(4)
    } else if c == '5' {
        Some(5)
    } else if c == '6' {
        Some(6)
    } else if c == '7' {
        Some(7)
    } else if c == '8' {
        Some(8)
    } else if c == '9' {
        Some(9)
    } else {
        None
    }
}

/// Reads the path denoted by `s[start..]`.
fn parse_from(s: &str, start: usize) -> (r: Option<Vec<usize>>)
    requires
        start <= s@.len(),
    ensures
        r is Some == (parse_path(s@.skip(start as int)) is Some),
        r is Some ==> r.unwrap()@ == parse_path(s@.skip(start as int)).unwrap(),
    decreases s@.len() - start,
{
    let ghost rel = s@.skip(start as int);
    let n = s.unicode_len();
    let mut i = start;
    let mut val: usize = 0;
    while i < n
        invariant
            start <= i <= n == s@.len(),
            rel == s@.skip(start as int),
            forall|j: int| start <= j < i ==> s@[j] != '.' && is_digit_char(s@[j]),
            val == seg_val(s@.subrange(start as int, i as int)),
        ensures
            start <= i <= n,
            i == n || s@[i as int] == '.',
            forall|j: int| start <= j < i ==> s@[j] != '.' && is_digit_char(s@[j]),
            val == seg_val(s@.subrange(start as int, i as int)),
        decreases n - i,
    {
        let c = s.get_char(i);
        if c == '.' {
            break ;
        }
        match char_digit(c) {
            Some(d) => {
                let ghost cur = s@.subrange(start as int, i as int);
                let ghost nxt = s@.subrange(start as int, i as int + 1);
                proof {
                    assert(nxt.drop_last() =~= cur);
                }
                if val > (usize::MAX - d) / 10 {
                    proof {
                        assert(val * 10 + d > usize::MAX) by (nonlinear_arith)
                            requires
                                val > (usize::MAX - d) / 10,
                                d <= 9,
                        ;
                        lemma_none_on_big_prefix(s@, start as int, i as int + 1, rel);
                    }
                    return None;
                }
                val = val * 10 + d;
            },
            None => {
                proof {
                    lemma_none_on_bad_char(s@, start as int, i as int, rel);
                }
                return None;
            },
        }
        i += 1;
    }
    // here every character in [start, i) is a digit, and either the end
    // of the string or a `.` stands at i
    proof {
        assert(forall|j: int| 0 <= j < i - start ==> rel[j] == s@[j + start]);
        lemma_dot_idx_at(rel, i - start);
        assert(rel.take(i - start) =~= s@.subrange(start as int, i as int));
    }
    if i == start || val == 0 {
        // an empty segment, or a run of zeros: not a positive number
        return None;
    }
    if i == n {
        proof {
            assert(rel.take(i - start) =~= rel);
        }
        let mut one = Vec::new();
        one.push(val - 1);
        proof {
            assert(one@ =~= seq![(seg_val(rel) - 1) as usize]);
        }
        Some(one)
    } else {
        proof {
            assert(rel.skip(i - start + 1) =~= s@.skip(i as int + 1));
        }
        match parse_from(s, i + 1) {
            Some(mut v) => {
                v.insert(0, val - 1);
                proof {
                    assert(v@ =~= seq![(seg_val(rel.take(i - start)) - 1) as usize]
                        + parse_path(s@.skip(i as int + 1)).unwrap());
                }
                Some(v)
            },
            None => None,
        }
    }
}

/// A segment that holds a non-digit character denotes nothing.
proof fn lemma_none_on_bad_char(s: Seq<char>, start: int, bad: int, rel: Seq<char>)
    requires
        0 <= start <= bad < s.len(),
        rel == s.skip(start),
        forall|j: int| start <= j < bad ==> s[j] != '.' && is_digit_char(s[j]),
        s[bad] != '.',
        !is_digit_char(s[bad]),
    ensures
        parse_path(rel) is None,
{
    let d = dot_idx(rel) as int;
    assert(forall|j: int| 0 <= j < rel.len() ==> rel[j] == s[j + start]);
    if d >= rel.len() {
        assert(!is_digit_char(rel[bad - start]));
        assert(!seg_ok(rel));
    } else {
        lemma_dot_idx_le_first_dot(rel, d);
        assert(rel[d] == '.');
        assert(d > bad - start);
        assert(!is_digit_char(rel.take(d)[bad - start]));
        assert(!seg_ok(rel.take(d)));
    }
}

/// The first `.` is no earlier than any prefix free of dots.
proof fn lemma_dot_idx_le_first_dot(s: Seq<char>, d: int)
    requires
        d == dot_idx(s) as int,
        d < s.len(),
    ensures
        s[d] == '.',
        forall|j: int| 0 <= j < d ==> s[j] != '.',
    decreases s.len(),
{
    if s.len() == 0 {
    } else if s[0] == '.' {
    } else {
        let rest = s.subrange(1, s.len() as int);
        lemma_dot_idx_le_first_dot(rest, d - 1);
        assert(forall|j: int| 1 <= j < d ==> s[j] == rest[j - 1]);
    }
}

/// A segment whose prefix already exceeds the machine's indices denotes
/// nothing.
proof fn lemma_none_on_big_prefix(s: Seq<char>, start: int, over: int, rel: Seq<char>)
    requires
        0 <= start < over <= s.len(),
        rel == s.skip(start),
        forall|j: int| start <= j < over ==> s[j] != '.' && is_digit_char(s[j]),
        seg_val(s.subrange(start, over)) > usize::MAX,
    ensures
        parse_path(rel) is None,
{
    let d = dot_idx(rel) as int;
    assert(forall|j: int| 0 <= j < rel.len() ==> rel[j] == s[j + start]);
    assert(rel.take(over - start) =~= s.subrange(start, over));
    if d >= rel.len() {
        lemma_seg_val_mono(rel, over - start, rel.len() as int);
        assert(rel.take(rel.len() as int) =~= rel);
        assert(!seg_ok(rel));
    } else {
        lemma_dot_idx_le_first_dot(rel, d);
        assert(d >= over - start);
        lemma_seg_val_mono(rel, over - start, d);
        assert(!seg_ok(rel.take(d)));
    }
}

/// A raw dotted path, split on `.`, each segment read as a positive
/// number and shifted to a 0-based index; any malformed segment makes
/// the whole path invalid.
pub fn convert_to_index_list(string_index_list: String) -> (r: Option<Vec<usize>>)
    ensures
        r is Some == (parse_path(string_index_list@) is Some),
        r is Some ==> r.unwrap()@ == parse_path(string_index_list@).unwrap(),
{
    proof {
        assert(string_index_list@.skip(0) =~= string_index_list@);
    }
    parse_from(string_index_list.as_str(), 0)
}

} // verus!
