//! Path expressions: splitting a delimited string into segments, and
//! reading a segment as an array index.

use vstd::prelude::*;

verus! {

/// The two path delimiters, slash and dot.
pub open spec fn is_delim(c: char) -> bool {
    c == '/' || c == '.'
}

/// Splitting a string on every delimiter, keeping empty segments: a string
/// without delimiters is one segment, and every delimiter adds one more.
pub open spec fn split_path(s: Seq<char>) -> Seq<Seq<char>>
    decreases s.len(),
{
    if s.len() == 0 {
        seq![Seq::<char>::empty()]
    } else if is_delim(s[0]) {
        seq![Seq::<char>::empty()] + split_path(s.subrange(1, s.len() as int))
    } else {
        let rest = split_path(s.subrange(1, s.len() as int));
        seq![seq![s[0]] + rest[0]] + rest.subrange(1, rest.len() as int)
    }
}

/// The views of a vector of segment strings.
pub open spec fn seg_views(ss: Seq<String>) -> Seq<Seq<char>> {
    ss.map_values(|s: String| s@)
}

/// Splitting always yields at least one segment.
pub proof fn lemma_split_path_len(s: Seq<char>)
    ensures
        split_path(s).len() >= 1,
    decreases s.len(),
{
    if s.len() > 0 {
        lemma_split_path_len(s.subrange(1, s.len() as int));
    }
}

/// A string without delimiters splits into exactly itself.
pub proof fn lemma_split_no_delim(s: Seq<char>)
    requires
        forall|i: int| 0 <= i < s.len() ==> !is_delim(s[i]),
    ensures
        split_path(s) == seq![s],
    decreases s.len(),
{
    if s.len() == 0 {
        assert(split_path(s) =~~= seq![s]);
    } else {
        let tail = s.subrange(1, s.len() as int);
        lemma_split_no_delim(tail);
        lemma_split_path_len(tail);
        assert(split_path(s) =~~= seq![s]);
    }
}

/// Splitting at the first delimiter: everything before it is the first
/// segment, and the rest splits on its own.
pub proof fn lemma_split_at_delim(s: Seq<char>, j: int)
    requires
        0 <= j < s.len(),
        is_delim(s[j]),
        forall|i: int| 0 <= i < j ==> !is_delim(s[i]),
    ensures
        split_path(s) == seq![s.subrange(0, j)] + split_path(s.subrange(j + 1, s.len() as int)),
    decreases j,
{
    let tail = s.subrange(1, s.len() as int);
    if j == 0 {
        assert(split_path(s) =~~= seq![s.subrange(0, 0)] + split_path(
            s.subrange(1, s.len() as int),
        ));
    } else {
        assert(tail[j - 1] == s[j]);
        lemma_split_at_delim(tail, j - 1);
        lemma_split_path_len(tail.subrange(j, tail.len() as int));
        assert(tail.subrange(0, j - 1) == s.subrange(1, j));
        assert(tail.subrange(j, tail.len() as int) == s.subrange(j + 1, s.len() as int));
        let rest = split_path(tail);
        assert(rest[0] == s.subrange(1, j));
        assert(seq![s[0]] + rest[0] =~= s.subrange(0, j));
        assert(rest.subrange(1, rest.len() as int) =~~= split_path(
            s.subrange(j + 1, s.len() as int),
        ));
        assert(split_path(s) =~~= seq![s.subrange(0, j)] + split_path(
            s.subrange(j + 1, s.len() as int),
        ));
    }
}

/// No segment that splitting produces contains a delimiter itself.
pub proof fn lemma_split_segments_no_delim(s: Seq<char>)
    ensures
        forall|i: int, j: int|
            0 <= i < split_path(s).len() && 0 <= j < split_path(s)[i].len() ==> !is_delim(
                #[trigger] split_path(s)[i][j],
            ),
    decreases s.len(),
{
    if s.len() == 0 {
    } else {
        let tail = s.subrange(1, s.len() as int);
        lemma_split_segments_no_delim(tail);
        lemma_split_path_len(tail);
        let rest = split_path(tail);
        if is_delim(s[0]) {
            assert(forall|i: int|
                1 <= i < split_path(s).len() ==> split_path(s)[i] == rest[i - 1]);
        } else {
            assert(split_path(s)[0] == seq![s[0]] + rest[0]);
            assert(forall|i: int|
                1 <= i < split_path(s).len() ==> split_path(s)[i] == rest[i]);
            assert(forall|j: int|
                0 <= j < split_path(s)[0].len() ==> !is_delim(split_path(s)[0][j]));
        }
    }
}

/// Index of the first delimiter of `p`, if any.
fn find_delim(p: &str) -> (r: Option<usize>)
    ensures
        match r {
            Some(j) => j < p@.len() && is_delim(p@[j as int]) && forall|k: int|
                0 <= k < j ==> !is_delim(p@[k]),
            None => forall|k: int| 0 <= k < p@.len() ==> !is_delim(p@[k]),
        },
{
    let n = p.unicode_len();
    let mut i: usize = 0;
    while i < n
        invariant
            i <= n,
            n == p@.len(),
            forall|k: int| 0 <= k < i ==> !is_delim(p@[k]),
        decreases n - i,
    {
        let c = p.get_char(i);
        if c == '/' || c == '.' {
            return Some(i);
        }
        i = i + 1;
    }
    None
}

/// Split a path expression on every slash or dot, keeping empty segments:
/// `"a//b"` gives `["a", "", "b"]` and `"/a"` gives `["", "a"]`.
pub fn build_path(p: &str) -> (segs: Vec<String>)
    ensures
        seg_views(segs@) == split_path(p@),
        segs@.len() >= 1,
    decreases p@.len(),
{
    match find_delim(p) {
        None => {
            let mut v: Vec<String> = Vec::new();
            v.push(p.to_owned());
            proof {
                lemma_split_no_delim(p@);
                assert(seg_views(v@) =~~= split_path(p@));
            }
            v
        },
        Some(j) => {
            let n = p.unicode_len();
            let head = p.substring_char(0, j).to_owned();
            let tail = p.substring_char(j + 1, n);
            let mut segs = build_path(tail);
            segs.insert(0, head);
            proof {
                lemma_split_at_delim(p@, j as int);
                assert(seg_views(segs@) =~~= split_path(p@));
            }
            segs
        },
    }
}

/// A decimal digit.
pub open spec fn is_digit(c: char) -> bool {
    48 <= c as u32 <= 57
}

/// The value of a decimal digit.
pub open spec fn digit_val(c: char) -> nat {
    (c as u32 - 48) as nat
}

/// A non-empty string of decimal digits: the only shape that counts as an
/// array index.
pub open spec fn is_digits(s: Seq<char>) -> bool {
    s.len() > 0 && forall|i: int| 0 <= i < s.len() ==> is_digit(s[i])
}

/// The numeric value of a digit string.
pub open spec fn digits_val(s: Seq<char>) -> nat
    decreases s.len(),
{
    if s.len() == 0 {
        0
    } else {
        digits_val(s.subrange(0, s.len() - 1)) * 10 + digit_val(s[s.len() - 1])
    }
}

/// A longer digit prefix never has a smaller value.
proof fn lemma_digits_val_prefix_mono(s: Seq<char>, i: int, j: int)
    requires
        0 <= i <= j <= s.len(),
    ensures
        digits_val(s.subrange(0, i)) <= digits_val(s.subrange(0, j)),
    decreases j - i,
{
    if i < j {
        lemma_digits_val_prefix_mono(s, i, j - 1);
        let pre = s.subrange(0, j);
        assert(pre.subrange(0, j - 1) == s.subrange(0, j - 1));
        assert(digits_val(s.subrange(0, j)) == digits_val(s.subrange(0, j - 1)) * 10 + digit_val(
            s[j - 1],
        ));
    }
}

/// Read a whole path segment as a non-negative array index: succeeds
/// exactly on a non-empty, all-digit segment whose value fits the machine,
/// so `"34"` is an index and `"34ab"` is not.
pub fn parse_index(p: &str) -> (r: Option<usize>)
    ensures
        match r {
            Some(v) => is_digits(p@) && digits_val(p@) == v,
            None => !is_digits(p@) || digits_val(p@) > usize::MAX,
        },
{
    let n = p.unicode_len();
    if n == 0 {
        return None;
    }
    let mut acc: usize = 0;
    let mut i: usize = 0;
    while i < n
        invariant
            i <= n,
            n == p@.len(),
            forall|k: int| 0 <= k < i ==> is_digit(p@[k]),
            acc == digits_val(p@.subrange(0, i as int)),
        decreases n - i,
    {
        let c = p.get_char(i);
        let cv = c as u32;
        if cv < 48 || cv > 57 {
            return None;
        }
        let d = (cv - 48) as usize;
        proof {
            assert(p@.subrange(0, i + 1).subrange(0, i as int) == p@.subrange(0, i as int));
            assert(digits_val(p@.subrange(0, i + 1)) == acc * 10 + d);
        }
        let step = match acc.checked_mul(10) {
            Some(m) => m.checked_add(d),
            None => None,
        };
        match step {
            Some(next) => {
                acc = next;
            },
            None => {
                proof {
                    lemma_digits_val_prefix_mono(p@, i + 1, n as int);
                    assert(p@.subrange(0, n as int) == p@);
                }
                return None;
            },
        }
        i = i + 1;
    }
    proof {
        assert(p@.subrange(0, n as int) == p@);
    }
    Some(acc)
}

} // verus!
