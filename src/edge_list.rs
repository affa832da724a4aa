use vstd::prelude::*;

use crate::graph::NodeId;

verus! {

/// An ASCII whitespace byte: space, tab, line feed, vertical tab, form feed or carriage
/// return. Edge lists are ASCII text; no other byte separates words.
pub open spec fn is_space(b: u8) -> bool {
    b == 32 || (9 <= b && b <= 13)
}

pub open spec fn is_digit(b: u8) -> bool {
    48 <= b && b <= 57
}

/// The first place at or after `i` that holds no whitespace, or the end.
pub open spec fn skip_space(s: Seq<u8>, i: int) -> int
    decreases s.len() - i,
{
    if i < 0 || i >= s.len() || !is_space(s[i]) {
        i
    } else {
        skip_space(s, i + 1)
    }
}

/// The first place at or after `i` that holds whitespace, or the end.
pub open spec fn word_end(s: Seq<u8>, i: int) -> int
    decreases s.len() - i,
{
    if i < 0 || i >= s.len() || is_space(s[i]) {
        i
    } else {
        word_end(s, i + 1)
    }
}

/// The decimal value of a run of digits.
pub open spec fn digits_value(s: Seq<u8>) -> int
    decreases s.len(),
{
    if s.len() == 0 {
        0
    } else {
        digits_value(s.drop_last()) * 10 + (s.last() - 48)
    }
}

/// Every byte of `d` is a decimal digit.
pub open spec fn all_digits(d: Seq<u8>) -> bool {
    forall|k: int| 0 <= k < d.len() ==> is_digit(#[trigger] d[k])
}

/// A word without the one `+` it may start with.
pub open spec fn unsigned_part(w: Seq<u8>) -> Seq<u8> {
    if w.len() > 0 && w[0] == 43 {
        w.drop_first()
    } else {
        w
    }
}

/// The value of one or more decimal digits that fits a `usize`.
pub open spec fn digits_number(d: Seq<u8>) -> Option<int> {
    if d.len() > 0 && all_digits(d) && digits_value(d) <= usize::MAX {
        Some(digits_value(d))
    } else {
        None
    }
}

/// The number a word spells: an optional `+` and then one or more decimal digits, with
/// a value that fits a `usize`.
pub open spec fn word_number(w: Seq<u8>) -> Option<int> {
    digits_number(unsigned_part(w))
}

/// The first two words of a line, each up to the whitespace that ends it.
pub open spec fn first_word(s: Seq<u8>) -> Seq<u8> {
    s.subrange(skip_space(s, 0), word_end(s, skip_space(s, 0)))
}

pub open spec fn second_word(s: Seq<u8>) -> Seq<u8> {
    let b = skip_space(s, word_end(s, skip_space(s, 0)));
    s.subrange(b, word_end(s, b))
}

/// The edge that a line of an edge list names: its first two words read as node
/// numbers; anything after them is ignored.
pub open spec fn line_edge(s: Seq<u8>) -> Option<(NodeId, NodeId)> {
    match (word_number(first_word(s)), word_number(second_word(s))) {
        (Some(a), Some(b)) => Some((a as NodeId, b as NodeId)),
        _ => None,
    }
}

proof fn lemma_skip_space_bounds(s: Seq<u8>, i: int)
    requires
        0 <= i <= s.len(),
    ensures
        i <= skip_space(s, i) <= s.len(),
    decreases s.len() - i,
{
    if i < s.len() && is_space(s[i]) {
        lemma_skip_space_bounds(s, i + 1);
    }
}

proof fn lemma_word_end_bounds(s: Seq<u8>, i: int)
    requires
        0 <= i <= s.len(),
    ensures
        i <= word_end(s, i) <= s.len(),
        forall|k: int| i <= k < word_end(s, i) ==> !is_space(#[trigger] s[k]),
    decreases s.len() - i,
{
    if i < s.len() && !is_space(s[i]) {
        lemma_word_end_bounds(s, i + 1);
    }
}

proof fn lemma_digits_value_grows(s: Seq<u8>, i: int)
    requires
        0 <= i <= s.len(),
        forall|k: int| 0 <= k < s.len() ==> is_digit(#[trigger] s[k]),
    ensures
        digits_value(s.subrange(0, i)) <= digits_value(s),
        0 <= digits_value(s.subrange(0, i)),
    decreases s.len() - i,
{
    if i < s.len() {
        lemma_digits_value_grows(s, i + 1);
        assert(s.subrange(0, i + 1).drop_last() =~= s.subrange(0, i));
    } else {
        assert(s.subrange(0, i) =~= s);
        lemma_digits_nonneg(s);
    }
}

proof fn lemma_digits_nonneg(s: Seq<u8>)
    requires
        forall|k: int| 0 <= k < s.len() ==> is_digit(#[trigger] s[k]),
    ensures
        0 <= digits_value(s),
    decreases s.len(),
{
    if s.len() > 0 {
        lemma_digits_nonneg(s.drop_last());
    }
}

fn skip_space_at(s: &[u8], i: usize) -> (r: usize)
    requires
        i <= s@.len(),
    ensures
        r == skip_space(s@, i as int),
{
    let mut j = i;
    while j < s.len() && (s[j] == 32 || (9 <= s[j] && s[j] <= 13))
        invariant
            i <= j <= s@.len(),
            skip_space(s@, j as int) == skip_space(s@, i as int),
        decreases s@.len() - j,
    {
        j = j + 1;
    }
    j
}

fn word_end_at(s: &[u8], i: usize) -> (r: usize)
    requires
        i <= s@.len(),
    ensures
        r == word_end(s@, i as int),
{
    let mut j = i;
    while j < s.len() && !(s[j] == 32 || (9 <= s[j] && s[j] <= 13))
        invariant
            i <= j <= s@.len(),
            word_end(s@, j as int) == word_end(s@, i as int),
        decreases s@.len() - j,
    {
        j = j + 1;
    }
    j
}

/// Reads `s[from..to]` as a number the way `word_number` does.
fn read_number(s: &[u8], from: usize, to: usize) -> (r: Option<usize>)
    requires
        from <= to <= s@.len(),
    ensures
        r == match word_number(s@.subrange(from as int, to as int)) {
            Some(v) => Some(v as usize),
            None => None::<usize>,
        },
{
    let ghost w = s@.subrange(from as int, to as int);
    let mut i = from;
    if i < to && s[i] == 43 {
        i = i + 1;
    }
    let ghost d = s@.subrange(i as int, to as int);
    proof {
        if w.len() > 0 && w[0] == 43 {
            assert(d =~= w.drop_first());
        } else {
            assert(d =~= w);
        }
    }
    if i == to {
        return None;
    }
    let start = i;
    let mut value: usize = 0;
    while i < to
        invariant
            from <= start <= i <= to,
            to <= s@.len(),
            d == s@.subrange(start as int, to as int),
            w == s@.subrange(from as int, to as int),
            d == unsigned_part(w),
            d.len() > 0,
            forall|k: int| 0 <= k < i - start ==> is_digit(#[trigger] d[k]),
            value == digits_value(d.subrange(0, i - start)),
        decreases to - i,
    {
        let b = s[i];
        if b < 48 || b > 57 {
            proof {
                assert(!is_digit(d[i - start]));
                assert(!all_digits(d));
                assert(digits_number(d) is None);
            }
            return None;
        }
        let digit: usize = (b - 48) as usize;
        assert(d.subrange(0, i - start + 1).drop_last() =~= d.subrange(0, i - start));
        if value > (usize::MAX - digit) / 10 {
            proof {
                assert(value * 10 + digit > usize::MAX) by (nonlinear_arith)
                    requires
                        value > (usize::MAX - digit) / 10,
                        digit <= 9,
                ;
                assert(d[i - start] == b);
                if all_digits(d) {
                    lemma_digits_value_grows(d, i - start + 1);
                    assert(digits_value(d.subrange(0, i - start + 1)) == value * 10 + digit);
                }
                assert(digits_number(d) is None);
            }
            return None;
        }
        proof {
            assert(value * 10 + digit <= usize::MAX) by (nonlinear_arith)
                requires
                    value <= (usize::MAX - digit) / 10,
                    digit <= 9,
            ;
        }
        value = value * 10 + digit;
        i = i + 1;
    }
    assert(d.subrange(0, d.len() as int) =~= d);
    Some(value)
}

/// The edge named by one line of an edge list: two node numbers separated by
/// whitespace. `None` when the line does not start with two such numbers. The format is
/// ASCII: only the ASCII whitespace bytes separate words, so a line that separates its
/// numbers with other Unicode spaces (such as U+00A0) is refused.
pub fn parse_edge_line(line: &[u8]) -> (r: Option<(NodeId, NodeId)>)
    ensures
        r == line_edge(line@),
{
    let s = line;
    let a0 = skip_space_at(s, 0);
    proof {
        lemma_skip_space_bounds(s@, 0);
    }
    let a1 = word_end_at(s, a0);
    proof {
        lemma_word_end_bounds(s@, a0 as int);
    }
    let b0 = skip_space_at(s, a1);
    proof {
        lemma_skip_space_bounds(s@, a1 as int);
    }
    let b1 = word_end_at(s, b0);
    proof {
        lemma_word_end_bounds(s@, b0 as int);
    }
    let a = read_number(s, a0, a1);
    let b = read_number(s, b0, b1);
    match (a, b) {
        (Some(x), Some(y)) => Some((x, y)),
        _ => None,
    }
}

} // verus!
