//! The textual seed format: a coordinate list of the literal form
//! `[(x1,y1),(x2,y2),...,(xn,yn)]` with non-negative decimal integers and
//! no other characters. The grammar is stated as a specification-level
//! parser over the byte sequence, and the executable parser is proved to
//! accept exactly the matching strings.

use vstd::prelude::*;

use crate::sim::{cell_view, LiveSet, World};

verus! {

/// Whether `b` is an ASCII decimal digit.
pub open spec fn is_digit(b: u8) -> bool {
    48 <= b <= 57
}

/// The length of the run of ASCII digits that starts at `i`.
pub open spec fn digit_run_len(s: Seq<u8>, i: int) -> int
    decreases s.len() - i,
{
    if i < 0 || i >= s.len() || !is_digit(s[i]) {
        0
    } else {
        1 + digit_run_len(s, i + 1)
    }
}

proof fn lemma_digit_run(s: Seq<u8>, i: int)
    requires
        0 <= i <= s.len(),
    ensures
        0 <= digit_run_len(s, i),
        i + digit_run_len(s, i) <= s.len(),
        forall|j: int| i <= j < i + digit_run_len(s, i) ==> is_digit(#[trigger] s[j]),
        i + digit_run_len(s, i) == s.len() || !is_digit(s[i + digit_run_len(s, i)]),
    decreases s.len() - i,
{
    if i < s.len() && is_digit(s[i]) {
        lemma_digit_run(s, i + 1);
    }
}

/// The non-negative integer a run of ASCII digits denotes.
pub open spec fn digits_value(s: Seq<u8>) -> int
    decreases s.len(),
{
    if s.len() == 0 {
        0
    } else {
        digits_value(s.drop_last()) * 10 + (s.last() - 48)
    }
}

proof fn lemma_digits_value_nonneg(s: Seq<u8>)
    requires
        forall|j: int| 0 <= j < s.len() ==> is_digit(#[trigger] s[j]),
    ensures
        digits_value(s) >= 0,
    decreases s.len(),
{
    if s.len() > 0 {
        lemma_digits_value_nonneg(s.drop_last());
    }
}

/// Whether the text at `i` is a parenthesized coordinate pair `(x,y)`.
pub open spec fn pair_ok(s: Seq<u8>, i: int) -> bool {
    let d1 = digit_run_len(s, i + 1);
    let d2 = digit_run_len(s, i + 2 + d1);
    &&& 0 <= i < s.len()
    &&& s[i] == 40
    &&& d1 >= 1
    &&& i + 1 + d1 < s.len()
    &&& s[i + 1 + d1] == 44
    &&& d2 >= 1
    &&& i + 2 + d1 + d2 < s.len()
    &&& s[i + 2 + d1 + d2] == 41
}

/// The index just past the pair that starts at `i`.
pub open spec fn pair_end(s: Seq<u8>, i: int) -> int {
    let d1 = digit_run_len(s, i + 1);
    let d2 = digit_run_len(s, i + 2 + d1);
    i + 3 + d1 + d2
}

/// The coordinate the pair at `i` denotes.
pub open spec fn pair_value(s: Seq<u8>, i: int) -> (int, int) {
    let d1 = digit_run_len(s, i + 1);
    let d2 = digit_run_len(s, i + 2 + d1);
    (
        digits_value(s.subrange(i + 1, i + 1 + d1)),
        digits_value(s.subrange(i + 2 + d1, i + 2 + d1 + d2)),
    )
}

/// The coordinates of the text `pair (',' pair)* ']'` that starts at `i`
/// and ends exactly at the end of `s`; `None` where the text deviates.
pub open spec fn parse_items(s: Seq<u8>, i: int) -> Option<Seq<(int, int)>>
    decreases s.len() - i,
{
    if !pair_ok(s, i) {
        None
    } else {
        let e = pair_end(s, i);
        let v = pair_value(s, i);
        if e < s.len() && s[e] == 44 {
            match parse_items(s, e + 1) {
                Some(rest) => Some(seq![v] + rest),
                None => None,
            }
        } else if e == s.len() - 1 && s[e] == 93 {
            Some(seq![v])
        } else {
            None
        }
    }
}

/// The coordinates a full seed string denotes: an enclosing bracket pair
/// around a non-empty comma-separated pair list, and nothing else;
/// `None` where the text does not match the grammar exactly.
pub open spec fn spec_parse(s: Seq<u8>) -> Option<Seq<(int, int)>> {
    if s.len() >= 1 && s[0] == 91 {
        parse_items(s, 1)
    } else {
        None
    }
}

/// The set of coordinates in `items` (duplicates collapse).
pub open spec fn items_set(items: Seq<(int, int)>) -> Set<(int, int)> {
    Set::new(|q: (int, int)| items.contains(q))
}

/// Whether a (non-negative) coordinate fits the machine integer width.
pub open spec fn fits_isize(q: (int, int)) -> bool {
    q.0 <= isize::MAX && q.1 <= isize::MAX
}

/// Whether every coordinate in `items` fits the machine integer width.
pub open spec fn items_fit(items: Seq<(int, int)>) -> bool {
    forall|j: int| 0 <= j < items.len() ==> fits_isize(#[trigger] items[j])
}

/// Why a seed string was rejected.
#[derive(Clone, Copy, Debug, PartialEq, Eq, Structural)]
pub enum ParseError {
    /// The text does not fully match the coordinate-list grammar.
    Malformed,
    /// A coordinate component does not fit the machine integer width.
    OutOfRange,
}

fn byte_is_digit(b: u8) -> (r: bool)
    ensures
        r == is_digit(b),
{
    48 <= b && b <= 57
}

/// Scan the digit run at `i`: its length, its value, and whether the
/// value exceeds the machine integer width (the value is only returned
/// where it does not).
fn scan_number(s: &[u8], i: usize) -> (r: (usize, usize, bool))
    requires
        i <= s@.len(),
    ensures
        r.0 == digit_run_len(s@, i as int),
        i + r.0 <= s@.len(),
        r.2 == (digits_value(s@.subrange(i as int, i + r.0)) > isize::MAX),
        !r.2 ==> r.1 == digits_value(s@.subrange(i as int, i + r.0)),
{
    proof {
        lemma_digit_run(s@, i as int);
    }
    let n = s.len();
    let cap: usize = isize::MAX as usize;
    let mut count: usize = 0;
    let mut value: usize = 0;
    let mut over = false;
    while i + count < n && byte_is_digit(s[i + count])
        invariant
            0 <= count,
            i + count <= n,
            n == s@.len(),
            cap == isize::MAX as usize,
            digit_run_len(s@, i as int) == count + digit_run_len(s@, i + count),
            forall|j: int| i <= j < i + count ==> is_digit(#[trigger] s@[j]),
            over == (digits_value(s@.subrange(i as int, i + count)) > isize::MAX),
            !over ==> value == digits_value(s@.subrange(i as int, i + count)) && value <= cap,
        decreases n - i - count,
    {
        let b = s[i + count];
        let d: usize = (b - 48) as usize;
        let ghost prefix = s@.subrange(i as int, i + count);
        let ghost longer = s@.subrange(i as int, i + count + 1);
        proof {
            assert(longer.drop_last() =~= prefix);
            assert(longer.last() == s@[i + count]);
            assert(digits_value(longer) == digits_value(prefix) * 10 + d);
        }
        if !over {
            match value.checked_mul(10) {
                Some(t) => {
                    match t.checked_add(d) {
                        Some(v2) => {
                            if v2 > cap {
                                over = true;
                            } else {
                                value = v2;
                            }
                        },
                        None => {
                            over = true;
                        },
                    }
                },
                None => {
                    over = true;
                },
            }
        }
        count += 1;
    }
    proof {
        assert(digit_run_len(s@, i + count) == 0);
    }
    (count, value, over)
}

/// Parse the coordinate pair at `i`: the index just past it, the cell it
/// denotes (where it fits the machine integer width), and whether a
/// component was too large. `None` exactly where no pair starts at `i`.
fn parse_pair(s: &[u8], i: usize) -> (r: Option<(usize, (isize, isize), bool)>)
    requires
        i <= s@.len(),
    ensures
        r is Some <==> pair_ok(s@, i as int),
        r matches Some((e, c, over)) ==> {
            &&& e == pair_end(s@, i as int)
            &&& i < e <= s@.len()
            &&& over == !fits_isize(pair_value(s@, i as int))
            &&& !over ==> cell_view(c) == pair_value(s@, i as int)
        },
{
    let n = s.len();
    if i >= n || s[i] != 40 {
        return None;
    }
    let (d1, x, over1) = scan_number(s, i + 1);
    if d1 == 0 {
        return None;
    }
    let j = i + 1 + d1;
    if j >= n || s[j] != 44 {
        return None;
    }
    let (d2, y, over2) = scan_number(s, j + 1);
    if d2 == 0 {
        return None;
    }
    let m = j + 1 + d2;
    if m >= n || s[m] != 41 {
        return None;
    }
    proof {
        lemma_digit_run(s@, i + 1);
        lemma_digit_run(s@, i + 2 + d1);
        lemma_digits_value_nonneg(s@.subrange(i + 1, i + 1 + d1));
        lemma_digits_value_nonneg(s@.subrange(i + 2 + d1, i + 2 + d1 + d2));
        assert(pair_ok(s@, i as int));
    }
    if over1 || over2 {
        Some((m + 1, (0, 0), true))
    } else {
        Some((m + 1, (x as isize, y as isize), false))
    }
}

/// `rest` prefixed by the coordinates already read, where a failed rest
/// fails the whole.
spec fn glue(acc: Seq<(int, int)>, rest: Option<Seq<(int, int)>>) -> Option<Seq<(int, int)>> {
    match rest {
        Some(t) => Some(acc + t),
        None => None,
    }
}

proof fn lemma_items_set_push(items: Seq<(int, int)>, q: (int, int))
    ensures
        items_set(items.push(q)) =~= items_set(items).insert(q),
{
    assert forall|p: (int, int)|
        items_set(items.push(q)).contains(p) <==> items_set(items).insert(q).contains(p) by {
        if items.push(q).contains(p) {
            let j = choose|j: int| 0 <= j < items.push(q).len() && items.push(q)[j] == p;
            if j < items.len() {
                assert(items[j] == p);
            }
        }
        if items.contains(p) {
            let j = choose|j: int| 0 <= j < items.len() && items[j] == p;
            assert(items.push(q)[j] == p);
        }
        if p == q {
            assert(items.push(q)[items.len() as int] == p);
        }
    }
}

/// Parse a seed string of the literal form `[(x1,y1),(x2,y2),...]` into
/// a live set.
///
/// The whole text must match the grammar before it is accepted: any
/// deviation is `Malformed`, even where the text also holds a coordinate
/// that is too large. A matching text whose coordinate does not fit the
/// machine integer width is `OutOfRange`, never silently truncated.
/// Duplicate coordinates collapse to a single cell.
pub fn parse_pattern(s: &[u8]) -> (r: Result<LiveSet, ParseError>)
    ensures
        match r {
            Ok(ls) => spec_parse(s@) matches Some(items) && items_fit(items) && ls@ == items_set(
                items,
            ),
            Err(ParseError::Malformed) => spec_parse(s@) is None,
            Err(ParseError::OutOfRange) => spec_parse(s@) matches Some(items) && !items_fit(items),
        },
{
    let n = s.len();
    if n == 0 || s[0] != 91 {
        return Err(ParseError::Malformed);
    }
    let mut ls = LiveSet::new();
    let mut over = false;
    let mut i: usize = 1;
    let ghost mut acc: Seq<(int, int)> = Seq::empty();
    proof {
        match parse_items(s@, 1) {
            Some(t) => {
                assert(Seq::<(int, int)>::empty() + t =~= t);
            },
            None => {},
        }
        assert(items_set(acc) =~= Set::<(int, int)>::empty());
    }
    loop
        invariant
            1 <= i <= n,
            n == s@.len(),
            n >= 1,
            s@[0] == 91,
            glue(acc, parse_items(s@, i as int)) == parse_items(s@, 1),
            !over ==> items_fit(acc) && ls@ == items_set(acc),
            over ==> !items_fit(acc),
        decreases n - i,
    {
        match parse_pair(s, i) {
            None => {
                return Err(ParseError::Malformed);
            },
            Some((e, c, o)) => {
                let ghost xy = pair_value(s@, i as int);
                if !o && !over {
                    ls.insert(c);
                }
                if o {
                    over = true;
                }
                proof {
                    lemma_items_set_push(acc, xy);
                    if o {
                        assert(acc.push(xy)[acc.len() as int] == xy);
                        assert(!items_fit(acc.push(xy)));
                    } else if over {
                        let j = choose|j: int| 0 <= j < acc.len() && !fits_isize(#[trigger] acc[j]);
                        assert(acc.push(xy)[j] == acc[j]);
                        assert(!items_fit(acc.push(xy)));
                    } else {
                        assert forall|j: int| 0 <= j < acc.push(xy).len() implies fits_isize(
                            #[trigger] acc.push(xy)[j],
                        ) by {
                            if j < acc.len() {
                                assert(acc.push(xy)[j] == acc[j]);
                            }
                        }
                    }
                }
                if e < n && s[e] == 44 {
                    proof {
                        match parse_items(s@, e + 1) {
                            Some(t) => {
                                assert(acc + (seq![xy] + t) =~= acc.push(xy) + t);
                            },
                            None => {},
                        }
                        acc = acc.push(xy);
                    }
                    i = e + 1;
                } else if e == n - 1 && s[e] == 93 {
                    proof {
                        assert(parse_items(s@, i as int) == Some(seq![xy]));
                        assert(acc + seq![xy] =~= acc.push(xy));
                        acc = acc.push(xy);
                        assert(parse_items(s@, 1) == Some(acc));
                    }
                    if over {
                        return Err(ParseError::OutOfRange);
                    } else {
                        return Ok(ls);
                    }
                } else {
                    proof {
                        assert(parse_items(s@, i as int) is None);
                    }
                    return Err(ParseError::Malformed);
                }
            },
        }
    }
}

/// Build a world from a textual seed and fixed viewport dimensions; both
/// buffers start as the parsed population, and a seed that the grammar or
/// the machine integer width rejects builds nothing.
pub fn init(height: usize, width: usize, pattern: &[u8]) -> (r: Result<World, ParseError>)
    ensures
        match r {
            Ok(w) => {
                &&& spec_parse(pattern@) matches Some(items) && items_fit(items) && w.current@
                    == items_set(items)
                &&& w.height == height
                &&& w.width == width
                &&& w.next@ == w.current@
            },
            Err(ParseError::Malformed) => spec_parse(pattern@) is None,
            Err(ParseError::OutOfRange) => spec_parse(pattern@) matches Some(items) && !items_fit(
                items,
            ),
        },
{
    match parse_pattern(pattern) {
        Ok(ls) => {
            let ls2 = ls.clone();
            Ok(World::new(height, width, ls, ls2))
        },
        Err(e) => Err(e),
    }
}

} // verus!
