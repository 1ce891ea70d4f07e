//! Edge lines as text: `from weight to`, the three fields separated by
//! white space.

use vstd::prelude::*;

verus! {

/// An edge between named nodes, as one line of an edge list gives it.
#[derive(Clone, Debug, PartialEq, Eq)]
pub struct NamedEdge {
    pub from: Vec<char>,
    pub to: Vec<char>,
    pub weight: i32,
}

/// Why a line is no edge.
#[derive(Clone, Copy, Debug, PartialEq, Eq, Structural)]
pub enum ParseError {
    /// The line has no field at all.
    NoStartingNode,
    /// The line ends after the starting node.
    NoWeight,
    /// The second field is no decimal integer of 32 bits.
    BadWeight,
    /// The line ends after the weight.
    NoFinishNode,
}

/// A character with the Unicode property White_Space.
pub open spec fn is_space(c: char) -> bool {
    let u = c as u32;
    (0x09 <= u <= 0x0D) || u == 0x20 || u == 0x85 || u == 0xA0 || u == 0x1680 || (0x2000 <= u
        <= 0x200A) || u == 0x2028 || u == 0x2029 || u == 0x202F || u == 0x205F || u == 0x3000
}

/// The first index from `i` on that holds no white space.
pub open spec fn skip_spaces(s: Seq<char>, i: int) -> int
    decreases s.len() - i,
{
    if 0 <= i < s.len() && is_space(s[i]) {
        skip_spaces(s, i + 1)
    } else {
        i
    }
}

/// The first index from `i` on that holds white space, or the end.
pub open spec fn skip_word(s: Seq<char>, i: int) -> int
    decreases s.len() - i,
{
    if 0 <= i < s.len() && !is_space(s[i]) {
        skip_word(s, i + 1)
    } else {
        i
    }
}

/// Where the field number `k` that begins at or after `i` starts and ends,
/// or `None` where the line has no such field.
pub open spec fn field_bounds(s: Seq<char>, i: int, k: nat) -> Option<(int, int)>
    decreases k,
{
    let start = skip_spaces(s, i);
    let end = skip_word(s, start);
    if !(0 <= start < s.len()) {
        None
    } else if k == 0 {
        Some((start, end))
    } else {
        field_bounds(s, end, (k - 1) as nat)
    }
}

/// The field number `k` of the line, counted from 0.
pub open spec fn field(s: Seq<char>, k: nat) -> Option<Seq<char>> {
    match field_bounds(s, 0, k) {
        Some(b) => Some(s.subrange(b.0, b.1)),
        None => None,
    }
}

/// A decimal digit.
pub open spec fn is_digit(c: char) -> bool {
    0x30 <= c as u32 <= 0x39
}

/// Every character is a decimal digit.
pub open spec fn all_digits(s: Seq<char>) -> bool {
    forall|i: int| 0 <= i < s.len() ==> is_digit(#[trigger] s[i])
}

/// The number that a digit string writes.
pub open spec fn number(s: Seq<char>) -> int
    decreases s.len(),
{
    if s.len() == 0 {
        0
    } else {
        10 * number(s.drop_last()) + (s.last() as u32 - 0x30)
    }
}

/// The weight that a field writes: an optional sign and at least one digit,
/// with a value of 32 bits.
pub open spec fn parsed_weight(s: Seq<char>) -> Option<i32> {
    let signed = s.len() > 0 && (s[0] == '-' || s[0] == '+');
    let digits = if signed {
        s.skip(1)
    } else {
        s
    };
    let value = if s.len() > 0 && s[0] == '-' {
        -number(digits)
    } else {
        number(digits)
    };
    if digits.len() == 0 || !all_digits(digits) || value < i32::MIN || value > i32::MAX {
        None
    } else {
        Some(value as i32)
    }
}

/// The edges that a line stands for: one, or the edge and its opposite
/// where links are undirected.
pub open spec fn parsed_edge(s: Seq<char>, undirected: bool) -> Result<
    Seq<(Seq<char>, Seq<char>, i32)>,
    ParseError,
> {
    match field(s, 0) {
        None => Err(ParseError::NoStartingNode),
        Some(from) => match field(s, 1) {
            None => Err(ParseError::NoWeight),
            Some(w) => match parsed_weight(w) {
                None => Err(ParseError::BadWeight),
                Some(weight) => match field(s, 2) {
                    None => Err(ParseError::NoFinishNode),
                    Some(to) => if undirected {
                        Ok(seq![(from, to, weight), (to, from, weight)])
                    } else {
                        Ok(seq![(from, to, weight)])
                    },
                },
            },
        },
    }
}

/// The fields of a list of named edges.
pub open spec fn named_views(edges: Seq<NamedEdge>) -> Seq<(Seq<char>, Seq<char>, i32)> {
    Seq::new(edges.len(), |i: int| (edges[i].from@, edges[i].to@, edges[i].weight))
}

/// A parsing result with its edges taken by their fields.
pub open spec fn parse_view(r: Result<Vec<NamedEdge>, ParseError>) -> Result<
    Seq<(Seq<char>, Seq<char>, i32)>,
    ParseError,
> {
    match r {
        Ok(edges) => Ok(named_views(edges@)),
        Err(e) => Err(e),
    }
}

/// Whether `c` is white space.
pub fn space(c: char) -> (yes: bool)
    ensures
        yes == is_space(c),
{
    let u: u32 = c as u32;
    (0x09 <= u && u <= 0x0D) || u == 0x20 || u == 0x85 || u == 0xA0 || u == 0x1680 || (0x2000 <= u
        && u <= 0x200A) || u == 0x2028 || u == 0x2029 || u == 0x202F || u == 0x205F || u == 0x3000
}

/// The bounds of the first field at or after `from`; both are the length of
/// the line where only white space is left.
pub fn next_field(line: &Vec<char>, from: usize) -> (bounds: (usize, usize))
    requires
        from <= line.len(),
    ensures
        bounds.0 == skip_spaces(line@, from as int),
        bounds.1 == skip_word(line@, bounds.0 as int),
        from <= bounds.0 <= bounds.1 <= line.len(),
{
    let mut start: usize = from;
    while start < line.len() && space(line[start])
        invariant
            from <= start <= line.len(),
            skip_spaces(line@, start as int) == skip_spaces(line@, from as int),
        decreases line.len() - start,
    {
        start += 1;
    }
    let mut end: usize = start;
    while end < line.len() && !space(line[end])
        invariant
            start <= end <= line.len(),
            skip_word(line@, end as int) == skip_word(line@, start as int),
        decreases line.len() - end,
    {
        end += 1;
    }
    (start, end)
}

/// The characters of `line` from `start` up to `end`.
pub fn copy_range(line: &Vec<char>, start: usize, end: usize) -> (out: Vec<char>)
    requires
        start <= end <= line.len(),
    ensures
        out@ == line@.subrange(start as int, end as int),
{
    let mut out: Vec<char> = Vec::new();
    let mut i: usize = start;
    while i < end
        invariant
            start <= i <= end <= line.len(),
            out@ == line@.subrange(start as int, i as int),
        decreases end - i,
    {
        out.push(line[i]);
        proof {
            assert(out@ =~= line@.subrange(start as int, i + 1));
        }
        i += 1;
    }
    out
}

/// Reads the characters of `line` from `start` up to `end` as a weight.
pub fn parse_weight(line: &Vec<char>, start: usize, end: usize) -> (out: Option<i32>)
    requires
        start <= end <= line.len(),
    ensures
        out == parsed_weight(line@.subrange(start as int, end as int)),
{
    let ghost s = line@.subrange(start as int, end as int);
    if start == end {
        return None;
    }
    let first = line[start];
    proof {
        assert(s[0] == first);
    }
    let negative = first == '-';
    let begin: usize = if first == '-' || first == '+' {
        start + 1
    } else {
        start
    };
    let ghost digits = line@.subrange(begin as int, end as int);
    proof {
        if begin == start {
            assert(digits == s);
        } else {
            assert(digits =~= s.skip(1));
        }
    }
    if begin == end {
        return None;
    }
    let mut value: i64 = 0;
    let mut i: usize = begin;
    while i < end
        invariant
            begin <= i <= end <= line.len(),
            begin < end,
            s == line@.subrange(start as int, end as int),
            s.len() > 0,
            s[0] == first,
            negative == (first == '-'),
            digits == (if first == '-' || first == '+' {
                s.skip(1)
            } else {
                s
            }),
            digits == line@.subrange(begin as int, end as int),
            all_digits(digits.take(i - begin)),
            0 <= number(digits.take(i - begin)),
            value == if number(digits.take(i - begin)) < 0x1_0000_0000 {
                number(digits.take(i - begin))
            } else {
                0x1_0000_0000
            },
        decreases end - i,
    {
        let c = line[i];
        let u: u32 = c as u32;
        proof {
            assert(digits[i - begin] == c);
            assert(digits.take(i - begin + 1).drop_last() == digits.take(i - begin));
            assert(digits.take(i - begin + 1).last() == c);
        }
        if u < 0x30 || u > 0x39 {
            proof {
                assert(!is_digit(digits[i - begin]));
            }
            return None;
        }
        let next: i64 = 10 * value + (u - 0x30) as i64;
        value = if next < 0x1_0000_0000 {
            next
        } else {
            0x1_0000_0000
        };
        proof {
            let longer = digits.take(i - begin + 1);
            assert forall|j: int| 0 <= j < longer.len() implies is_digit(#[trigger] longer[j]) by {
                if j < i - begin {
                    assert(longer[j] == digits.take(i - begin)[j]);
                }
            }
        }
        i += 1;
    }
    proof {
        assert(digits.take(end - begin) == digits);
    }
    let signed: i64 = if negative {
        -value
    } else {
        value
    };
    if signed < -0x8000_0000 || signed > 0x7FFF_FFFF {
        None
    } else {
        Some(signed as i32)
    }
}

/// Reads one line of an edge list. The fields are the starting node, the
/// weight and the finish node, in this order; what follows them is ignored.
pub fn parse_edge(line: &Vec<char>, undirected: bool) -> (out: Result<Vec<NamedEdge>, ParseError>)
    ensures
        parse_view(out) == parsed_edge(line@, undirected),
{
    proof {
        reveal_with_fuel(field_bounds, 3);
    }
    let first = next_field(line, 0);
    if first.0 >= line.len() {
        return Err(ParseError::NoStartingNode);
    }
    let second = next_field(line, first.1);
    if second.0 >= line.len() {
        return Err(ParseError::NoWeight);
    }
    let weight = match parse_weight(line, second.0, second.1) {
        Some(weight) => weight,
        None => {
            return Err(ParseError::BadWeight);
        },
    };
    let third = next_field(line, second.1);
    if third.0 >= line.len() {
        return Err(ParseError::NoFinishNode);
    }
    let mut edges: Vec<NamedEdge> = Vec::new();
    edges.push(
        NamedEdge {
            from: copy_range(line, first.0, first.1),
            to: copy_range(line, third.0, third.1),
            weight,
        },
    );
    if undirected {
        edges.push(
            NamedEdge {
                from: copy_range(line, third.0, third.1),
                to: copy_range(line, first.0, first.1),
                weight,
            },
        );
    }
    proof {
        let from = line@.subrange(first.0 as int, first.1 as int);
        let to = line@.subrange(third.0 as int, third.1 as int);
        if undirected {
            assert(named_views(edges@) =~= seq![(from, to, weight), (to, from, weight)]);
        } else {
            assert(named_views(edges@) =~= seq![(from, to, weight)]);
        }
    }
    Ok(edges)
}

/// Whether a line of an edge list holds an edge: it is neither empty nor a
/// comment, which starts with two slashes.
pub fn is_data_line(line: &Vec<char>) -> (data: bool)
    ensures
        data == (line@.len() > 0 && !(line@.len() >= 2 && line@[0] == '/' && line@[1] == '/')),
{
    line.len() > 0 && !(line.len() >= 2 && line[0] == '/' && line[1] == '/')
}

} // verus!
