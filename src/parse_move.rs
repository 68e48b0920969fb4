//! The move grammar. A move is either a table drop `t<N>` (put hand card `N`
//! on the table) or a capture `<N>;<I1>+<I2>+...` (play hand card `N`,
//! taking the table cards at `I1`, `I2`, ...). Each index is a decimal
//! numeral without a leading zero ("0" itself aside) that fits in 32 bits.
//! The whole text must match; nothing may follow the move.

use vstd::prelude::*;

verus! {

pub const SEMICOLON: u8 = 59;
pub const PLUS: u8 = 43;
pub const LETTER_T: u8 = 116;
pub const DIGIT_ZERO: u8 = 48;
pub const DIGIT_NINE: u8 = 57;
pub const INDEX_MAX: u64 = 0xFFFF_FFFF;

/// A move as written: the hand index, and the table indices for a capture
/// (`None` for a table drop). Indices are not checked against any hand or table.
#[derive(Clone, Debug)]
pub struct ParsedMove {
    pub from: usize,
    pub to: Option<Vec<usize>>,
}

/// The abstract value of a parsed move: hand index and, for a capture, the table indices.
pub type MoveText = (usize, Option<Seq<usize>>);

impl ParsedMove {
    pub open spec fn model(&self) -> MoveText {
        (
            self.from,
            match self.to {
                Some(v) => Some(v@),
                None => None,
            },
        )
    }
}

/// The abstract value of a parser's result.
pub open spec fn parsed(r: Option<ParsedMove>) -> Option<MoveText> {
    match r {
        Some(m) => Some(m.model()),
        None => None,
    }
}

pub open spec fn is_digit(c: u8) -> bool {
    DIGIT_ZERO <= c <= DIGIT_NINE
}

pub open spec fn all_digits(s: Seq<u8>) -> bool {
    forall|i: int| 0 <= i < s.len() ==> is_digit(#[trigger] s[i])
}

/// The number that a string of decimal digits denotes.
pub open spec fn digits_value(s: Seq<u8>) -> nat
    decreases s.len(),
{
    if s.len() == 0 {
        0
    } else {
        digits_value(s.drop_last()) * 10 + (s.last() - DIGIT_ZERO) as nat
    }
}

/// The index that `s` denotes, if it is a well-formed numeral: one or more
/// digits, no leading zero unless it is the single digit 0, at most `INDEX_MAX`.
pub open spec fn numeral_value(s: Seq<u8>) -> Option<usize> {
    if s.len() >= 1 && all_digits(s) && (s.len() == 1 || s[0] != DIGIT_ZERO)
        && digits_value(s) <= INDEX_MAX {
        Some(digits_value(s) as usize)
    } else {
        None
    }
}

/// The pieces of `s` between occurrences of `sep` (an empty `s` is one empty piece).
pub open spec fn split_on(s: Seq<u8>, sep: u8) -> Seq<Seq<u8>>
    decreases s.len(),
{
    if s.len() == 0 {
        seq![Seq::<u8>::empty()]
    } else {
        let init = split_on(s.drop_last(), sep);
        if s.last() == sep {
            init.push(Seq::<u8>::empty())
        } else {
            init.update(init.len() - 1, init.last().push(s.last()))
        }
    }
}

/// The table drop form `t<N>`.
pub open spec fn table_drop_spec(b: Seq<u8>) -> Option<MoveText> {
    if b.len() >= 1 && b[0] == LETTER_T {
        match numeral_value(b.drop_first()) {
            Some(n) => Some((n, None)),
            None => None,
        }
    } else {
        None
    }
}

/// The capture form `<N>;<I1>+<I2>+...`, with at least one table index.
pub open spec fn taking_spec(b: Seq<u8>) -> Option<MoveText> {
    let parts = split_on(b, SEMICOLON);
    let items = split_on(parts[1], PLUS);
    if parts.len() == 2 && numeral_value(parts[0]) is Some
        && forall|k: int| 0 <= k < items.len() ==> (#[trigger] numeral_value(items[k])) is Some {
        Some((
            numeral_value(parts[0])->0,
            Some(items.map_values(|t: Seq<u8>| numeral_value(t)->0)),
        ))
    } else {
        None
    }
}

/// A move in either form.
pub open spec fn move_spec(b: Seq<u8>) -> Option<MoveText> {
    match table_drop_spec(b) {
        Some(m) => Some(m),
        None => taking_spec(b),
    }
}

pub proof fn lemma_split_nonempty(s: Seq<u8>, sep: u8)
    ensures
        split_on(s, sep).len() >= 1,
    decreases s.len(),
{
    if s.len() > 0 {
        lemma_split_nonempty(s.drop_last(), sep);
    }
}

/// The index written in `b[start..end]`, if that text is a well-formed numeral.
fn parse_index(b: &[u8], start: usize, end: usize) -> (r: Option<usize>)
    requires
        start <= end <= b@.len(),
    ensures
        r == numeral_value(b@.subrange(start as int, end as int)),
{
    let ghost s = b@.subrange(start as int, end as int);
    if start == end {
        return None;
    }
    if end - start > 1 && b[start] == DIGIT_ZERO {
        return None;
    }
    let mut acc: u64 = 0;
    let mut i: usize = start;
    while i < end
        invariant
            start <= i <= end <= b@.len(),
            s == b@.subrange(start as int, end as int),
            all_digits(b@.subrange(start as int, i as int)),
            acc <= INDEX_MAX + 1,
            acc as int == if digits_value(b@.subrange(start as int, i as int)) <= INDEX_MAX {
                digits_value(b@.subrange(start as int, i as int)) as int
            } else {
                INDEX_MAX + 1
            },
        decreases end - i,
    {
        let c = b[i];
        if c < DIGIT_ZERO || c > DIGIT_NINE {
            assert(!all_digits(s)) by {
                assert(s[i - start] == c);
            }
            return None;
        }
        let ghost pre = b@.subrange(start as int, i as int);
        assert(b@.subrange(start as int, i + 1) =~= pre.push(c));
        assert(b@.subrange(start as int, i + 1).drop_last() =~= pre);
        let next = acc * 10 + (c - DIGIT_ZERO) as u64;
        if next > INDEX_MAX {
            acc = INDEX_MAX + 1;
        } else {
            acc = next;
        }
        i = i + 1;
    }
    assert(s =~= b@.subrange(start as int, i as int));
    if acc > INDEX_MAX {
        None
    } else {
        Some(acc as usize)
    }
}


/// The pieces of `b[start..end]` between occurrences of `sep`, as position ranges.
fn split_ranges(b: &[u8], start: usize, end: usize, sep: u8) -> (r: Vec<(usize, usize)>)
    requires
        start <= end <= b@.len(),
    ensures
        r@.len() == split_on(b@.subrange(start as int, end as int), sep).len(),
        forall|k: int|
            0 <= k < r@.len() ==> {
                &&& start <= (#[trigger] r@[k]).0 <= r@[k].1 <= end
                &&& b@.subrange(r@[k].0 as int, r@[k].1 as int) == split_on(
                    b@.subrange(start as int, end as int),
                    sep,
                )[k]
            },
{
    let mut done: Vec<(usize, usize)> = Vec::new();
    let mut cur: usize = start;
    let mut i: usize = start;
    while i < end
        invariant
            start <= cur <= i <= end <= b@.len(),
            split_on(b@.subrange(start as int, i as int), sep).len() == done@.len() + 1,
            split_on(b@.subrange(start as int, i as int), sep).last() == b@.subrange(
                cur as int,
                i as int,
            ),
            forall|k: int|
                0 <= k < done@.len() ==> {
                    &&& start <= (#[trigger] done@[k]).0 <= done@[k].1 <= i
                    &&& b@.subrange(done@[k].0 as int, done@[k].1 as int) == split_on(
                        b@.subrange(start as int, i as int),
                        sep,
                    )[k]
                },
        decreases end - i,
    {
        let ghost pre = b@.subrange(start as int, i as int);
        let ghost next = b@.subrange(start as int, i + 1);
        proof {
            assert(next.drop_last() =~= pre);
            assert(next.last() == b@[i as int]);
            lemma_split_nonempty(pre, sep);
        }
        if b[i] == sep {
            done.push((cur, i));
            cur = i + 1;
            assert(b@.subrange(cur as int, i + 1) =~= Seq::<u8>::empty());
        } else {
            assert(b@.subrange(cur as int, i + 1) =~= b@.subrange(cur as int, i as int).push(
                b@[i as int],
            ));
        }
        i = i + 1;
    }
    done.push((cur, end));
    done
}

/// Parses the table drop form `t<N>`.
pub fn parse_table_drop_move(input: &[u8]) -> (r: Option<ParsedMove>)
    ensures
        parsed(r) == table_drop_spec(input@),
{
    let n = input.len();
    if n >= 1 && input[0] == LETTER_T {
        assert(input@.subrange(1, n as int) =~= input@.drop_first());
        match parse_index(input, 1, n) {
            Some(from) => Some(ParsedMove { from, to: None }),
            None => None,
        }
    } else {
        None
    }
}

/// Parses the capture form `<N>;<I1>+<I2>+...`.
pub fn parse_taking_move(input: &[u8]) -> (r: Option<ParsedMove>)
    ensures
        parsed(r) == taking_spec(input@),
{
    let n = input.len();
    let ghost parts = split_on(input@, SEMICOLON);
    assert(input@.subrange(0, n as int) =~= input@);
    let halves = split_ranges(input, 0, n, SEMICOLON);
    if halves.len() != 2 {
        return None;
    }
    let (l0, l1) = halves[0];
    let (r0, r1) = halves[1];
    let from = match parse_index(input, l0, l1) {
        Some(v) => v,
        None => return None,
    };
    let ghost items = split_on(parts[1], PLUS);
    let pieces = split_ranges(input, r0, r1, PLUS);
    let mut to: Vec<usize> = Vec::new();
    let mut k: usize = 0;
    while k < pieces.len()
        invariant
            k <= pieces@.len() == items.len(),
            parts == split_on(input@, SEMICOLON),
            items == split_on(parts[1], PLUS),
            parts.len() == 2,
            numeral_value(parts[0]) == Some(from),
            r0 <= r1 <= n == input@.len(),
            input@.subrange(r0 as int, r1 as int) == parts[1],
            forall|j: int|
                0 <= j < pieces@.len() ==> {
                    &&& r0 <= (#[trigger] pieces@[j]).0 <= pieces@[j].1 <= r1
                    &&& input@.subrange(pieces@[j].0 as int, pieces@[j].1 as int) == items[j]
                },
            to@.len() == k,
            forall|j: int|
                0 <= j < k ==> (#[trigger] numeral_value(items[j])) == Some(to@[j]),
        decreases pieces@.len() - k,
    {
        let (p0, p1) = pieces[k];
        match parse_index(input, p0, p1) {
            Some(v) => {
                to.push(v);
            },
            None => {
                assert(numeral_value(items[k as int]) is None);
                assert(!(forall|j: int| 0 <= j < items.len() ==> (#[trigger] numeral_value(items[j])) is Some));
                return None;
            },
        }
        k = k + 1;
    }
    assert(to@ =~= items.map_values(|t: Seq<u8>| numeral_value(t)->0));
    Some(ParsedMove { from, to: Some(to) })
}

/// Parses a move in either form.
pub fn parse_move_internal(input: &[u8]) -> (r: Option<ParsedMove>)
    ensures
        parsed(r) == move_spec(input@),
{
    match parse_table_drop_move(input) {
        Some(m) => Some(m),
        None => parse_taking_move(input),
    }
}

} // verus!
