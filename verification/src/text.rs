//! Reading puzzle text: characters, separators, white space and decimal
//! numbers.

use vstd::prelude::*;

verus! {

/// The characters of `s`, in order.
pub fn chars_of(s: &str) -> (chars: Vec<char>)
    ensures
        chars@ == s@,
{
    let mut chars: Vec<char> = Vec::new();
    for c in it: s.chars()
        invariant
            chars@ == it.seq().take(it.index() as int),
            it.seq() == s@,
    {
        chars.push(c);
        assert(it.seq().take(it.index() + 1) =~= it.seq().take(it.index() as int).push(c));
    }
    assert(s@.take(s@.len() as int) =~= s@);
    chars
}

/// The position of the first `sep` in `s`, or the length of `s` where it
/// holds none.
pub open spec fn index_of(s: Seq<char>, sep: char) -> int
    decreases s.len(),
{
    if s.len() == 0 || s[0] == sep {
        0
    } else {
        1 + index_of(s.drop_first(), sep)
    }
}

/// The pieces of `s` between occurrences of `sep`: one more piece than there
/// are separators, so a text without separator is its own single piece.
pub open spec fn split(s: Seq<char>, sep: char) -> Seq<Seq<char>>
    decreases s.len(),
{
    let i = index_of(s, sep);
    if 0 <= i < s.len() {
        seq![s.take(i)] + split(s.skip(i + 1), sep)
    } else {
        seq![s]
    }
}

/// The pieces of `chars` that the index pairs of `bounds` delimit.
pub open spec fn pieces(chars: Seq<char>, bounds: Seq<(usize, usize)>) -> Seq<Seq<char>> {
    Seq::new(bounds.len(), |k: int| chars.subrange(bounds[k].0 as int, bounds[k].1 as int))
}

/// Every pair of `bounds` delimits a piece inside `from..to`.
pub open spec fn bounds_within(bounds: Seq<(usize, usize)>, from: int, to: int) -> bool {
    forall|k: int|
        0 <= k < bounds.len() ==> from <= (#[trigger] bounds[k]).0 <= bounds[k].1 <= to
}

/// `index_of` finds `i` where no separator stands before `i` and one stands
/// at `i`, or `i` is the end.
pub proof fn lemma_index_of(s: Seq<char>, sep: char, i: int)
    requires
        0 <= i <= s.len(),
        forall|k: int| 0 <= k < i ==> s[k] != sep,
        i == s.len() || s[i] == sep,
    ensures
        index_of(s, sep) == i,
    decreases i,
{
    if i > 0 {
        lemma_index_of(s.drop_first(), sep, i - 1);
    }
}

/// Splits `chars[from..to]` at each `sep` and returns where each piece starts
/// and ends.
pub fn split_bounds(chars: &Vec<char>, from: usize, to: usize, sep: char) -> (bounds: Vec<
    (usize, usize),
>)
    requires
        from <= to <= chars.len(),
    ensures
        pieces(chars@, bounds@) == split(chars@.subrange(from as int, to as int), sep),
        bounds_within(bounds@, from as int, to as int),
        bounds.len() >= 1,
{
    let mut bounds: Vec<(usize, usize)> = Vec::new();
    let mut start: usize = from;
    let mut i: usize = from;
    let ghost whole = chars@.subrange(from as int, to as int);
    while i < to
        invariant
            from <= start <= i <= to <= chars.len(),
            whole == chars@.subrange(from as int, to as int),
            forall|k: int| start <= k < i ==> chars@[k] != sep,
            split(whole, sep) == pieces(chars@, bounds@) + split(
                chars@.subrange(start as int, to as int),
                sep,
            ),
            bounds_within(bounds@, from as int, to as int),
        decreases to - i,
    {
        if chars[i] == sep {
            proof {
                let rest = chars@.subrange(start as int, to as int);
                lemma_index_of(rest, sep, i - start);
                assert(rest.take(i - start) =~= chars@.subrange(start as int, i as int));
                assert(rest.skip(i - start + 1) =~= chars@.subrange(i + 1, to as int));
                assert(pieces(chars@, bounds@.push((start, i))) =~= pieces(chars@, bounds@)
                    + seq![chars@.subrange(start as int, i as int)]);
            }
            bounds.push((start, i));
            start = i + 1;
        }
        i += 1;
    }
    proof {
        let rest = chars@.subrange(start as int, to as int);
        lemma_index_of(rest, sep, to - start);
        assert(pieces(chars@, bounds@.push((start, to))) =~= pieces(chars@, bounds@)
            + seq![rest]);
    }
    bounds.push((start, to));
    bounds
}

/// White space as Unicode defines it.
pub open spec fn is_whitespace(c: char) -> bool {
    ||| c == ' '
    ||| '\u{9}' <= c <= '\u{d}'
    ||| c == '\u{85}'
    ||| c == '\u{a0}'
    ||| c == '\u{1680}'
    ||| '\u{2000}' <= c <= '\u{200a}'
    ||| c == '\u{2028}'
    ||| c == '\u{2029}'
    ||| c == '\u{202f}'
    ||| c == '\u{205f}'
    ||| c == '\u{3000}'
}

/// Tells whether `c` is white space.
pub fn whitespace(c: char) -> (b: bool)
    ensures
        b == is_whitespace(c),
{
    c == ' ' || ('\u{9}' <= c && c <= '\u{d}') || c == '\u{85}' || c == '\u{a0}' || c
        == '\u{1680}' || ('\u{2000}' <= c && c <= '\u{200a}') || c == '\u{2028}' || c
        == '\u{2029}' || c == '\u{202f}' || c == '\u{205f}' || c == '\u{3000}'
}

/// `s` without its leading white space.
pub open spec fn trim_start(s: Seq<char>) -> Seq<char>
    decreases s.len(),
{
    if s.len() > 0 && is_whitespace(s[0]) {
        trim_start(s.drop_first())
    } else {
        s
    }
}

/// `s` without its trailing white space.
pub open spec fn trim_end(s: Seq<char>) -> Seq<char>
    decreases s.len(),
{
    if s.len() > 0 && is_whitespace(s.last()) {
        trim_end(s.drop_last())
    } else {
        s
    }
}

/// `s` without leading and trailing white space.
pub open spec fn trim(s: Seq<char>) -> Seq<char> {
    trim_end(trim_start(s))
}

/// Finds where `chars[from..to]` starts and ends once leading and trailing
/// white space is set aside.
pub fn trim_bounds(chars: &Vec<char>, from: usize, to: usize) -> (bounds: (usize, usize))
    requires
        from <= to <= chars.len(),
    ensures
        from <= bounds.0 <= bounds.1 <= to,
        chars@.subrange(bounds.0 as int, bounds.1 as int) == trim(
            chars@.subrange(from as int, to as int),
        ),
{
    let mut start: usize = from;
    while start < to && whitespace(chars[start])
        invariant
            from <= start <= to <= chars.len(),
            trim_start(chars@.subrange(from as int, to as int)) == trim_start(
                chars@.subrange(start as int, to as int),
            ),
        decreases to - start,
    {
        assert(chars@.subrange(start as int, to as int).drop_first() =~= chars@.subrange(
            start + 1,
            to as int,
        ));
        start += 1;
    }
    let mut end: usize = to;
    while start < end && whitespace(chars[end - 1])
        invariant
            start <= end <= to <= chars.len(),
            trim_end(chars@.subrange(start as int, to as int)) == trim_end(
                chars@.subrange(start as int, end as int),
            ),
        decreases end - start,
    {
        assert(chars@.subrange(start as int, end as int).drop_last() =~= chars@.subrange(
            start as int,
            end - 1,
        ));
        end -= 1;
    }
    (start, end)
}

/// `s` without the `c`s at its start.
pub open spec fn strip_start(s: Seq<char>, c: char) -> Seq<char>
    decreases s.len(),
{
    if s.len() > 0 && s[0] == c {
        strip_start(s.drop_first(), c)
    } else {
        s
    }
}

/// `s` without the `c`s at its end.
pub open spec fn strip_end(s: Seq<char>, c: char) -> Seq<char>
    decreases s.len(),
{
    if s.len() > 0 && s.last() == c {
        strip_end(s.drop_last(), c)
    } else {
        s
    }
}

/// Finds where `chars[from..to]` starts once the `c`s at its start are set
/// aside.
pub fn strip_start_bound(chars: &Vec<char>, from: usize, to: usize, c: char) -> (start: usize)
    requires
        from <= to <= chars.len(),
    ensures
        from <= start <= to,
        chars@.subrange(start as int, to as int) == strip_start(
            chars@.subrange(from as int, to as int),
            c,
        ),
{
    let mut start: usize = from;
    while start < to && chars[start] == c
        invariant
            from <= start <= to <= chars.len(),
            strip_start(chars@.subrange(from as int, to as int), c) == strip_start(
                chars@.subrange(start as int, to as int),
                c,
            ),
        decreases to - start,
    {
        assert(chars@.subrange(start as int, to as int).drop_first() =~= chars@.subrange(
            start + 1,
            to as int,
        ));
        start += 1;
    }
    start
}

/// Finds where `chars[from..to]` ends once the `c`s at its end are set aside.
pub fn strip_end_bound(chars: &Vec<char>, from: usize, to: usize, c: char) -> (end: usize)
    requires
        from <= to <= chars.len(),
    ensures
        from <= end <= to,
        chars@.subrange(from as int, end as int) == strip_end(
            chars@.subrange(from as int, to as int),
            c,
        ),
{
    let mut end: usize = to;
    while from < end && chars[end - 1] == c
        invariant
            from <= end <= to <= chars.len(),
            strip_end(chars@.subrange(from as int, to as int), c) == strip_end(
                chars@.subrange(from as int, end as int),
                c,
            ),
        decreases end - from,
    {
        assert(chars@.subrange(from as int, end as int).drop_last() =~= chars@.subrange(
            from as int,
            end - 1,
        ));
        end -= 1;
    }
    end
}

/// `line` without the carriage return at its end, if it has one.
pub open spec fn without_return(line: Seq<char>) -> Seq<char> {
    if line.len() > 0 && line.last() == '\r' {
        line.drop_last()
    } else {
        line
    }
}

/// The lines of a text. A line ends with a line feed, or with a carriage
/// return and a line feed, neither of which belongs to it; the last line may
/// go without, and then keeps all its characters. What follows the last line
/// feed is a line only where it is not empty.
pub open spec fn lines(s: Seq<char>) -> Seq<Seq<char>> {
    let parts = split(s, '\n');
    let ended = Seq::new((parts.len() - 1) as nat, |i: int| without_return(parts[i]));
    if parts.last().len() == 0 {
        ended
    } else {
        ended.push(parts.last())
    }
}

/// Finds where each line of `chars` starts and ends.
pub fn line_bounds(chars: &Vec<char>) -> (bounds: Vec<(usize, usize)>)
    ensures
        pieces(chars@, bounds@) == lines(chars@),
        bounds_within(bounds@, 0, chars.len() as int),
{
    let parts = split_bounds(chars, 0, chars.len(), '\n');
    assert(chars@.subrange(0, chars@.len() as int) =~= chars@);
    let ghost texts = split(chars@, '\n');
    let mut bounds: Vec<(usize, usize)> = Vec::new();
    let mut k: usize = 0;
    while k + 1 < parts.len()
        invariant
            k + 1 <= parts.len(),
            texts == pieces(chars@, parts@),
            bounds_within(parts@, 0, chars.len() as int),
            bounds_within(bounds@, 0, chars.len() as int),
            bounds@.len() == k,
            forall|i: int|
                0 <= i < k ==> chars@.subrange(
                    (#[trigger] bounds@[i]).0 as int,
                    bounds@[i].1 as int,
                ) == without_return(texts[i]),
        decreases parts.len() - k,
    {
        let (from, to) = parts[k];
        let ghost part = chars@.subrange(from as int, to as int);
        assert(texts[k as int] == part);
        if from < to && chars[to - 1] == '\r' {
            assert(part.last() == chars@[to - 1]);
            assert(part.drop_last() =~= chars@.subrange(from as int, to - 1));
            bounds.push((from, to - 1));
        } else {
            if from < to {
                assert(part.last() == chars@[to - 1]);
            }
            bounds.push((from, to));
        }
        k += 1;
    }
    let (from, to) = parts[k];
    assert(texts.last() == chars@.subrange(from as int, to as int));
    if from < to {
        bounds.push((from, to));
    }
    assert(pieces(chars@, bounds@) =~= lines(chars@));
    bounds
}

/// A decimal digit.
pub open spec fn is_digit(c: char) -> bool {
    '0' <= c <= '9'
}

/// The number that a decimal digit stands for.
pub open spec fn digit_value(c: char) -> int {
    c as int - '0' as int
}

/// Every character of `s` is a decimal digit.
pub open spec fn all_digits(s: Seq<char>) -> bool {
    forall|i: int| 0 <= i < s.len() ==> is_digit(#[trigger] s[i])
}

/// The number that a sequence of decimal digits stands for.
pub open spec fn decimal(s: Seq<char>) -> int
    decreases s.len(),
{
    if s.len() == 0 {
        0
    } else {
        decimal(s.drop_last()) * 10 + digit_value(s.last())
    }
}

/// An unsigned number as text: at least one decimal digit, with or without a
/// plus sign in front.
pub open spec fn is_unsigned(s: Seq<char>) -> bool {
    if s.len() > 0 && s[0] == '+' {
        s.len() > 1 && all_digits(s.skip(1))
    } else {
        s.len() > 0 && all_digits(s)
    }
}

/// The value of an unsigned number given as text.
pub open spec fn unsigned_value(s: Seq<char>) -> int {
    if s.len() > 0 && s[0] == '+' {
        decimal(s.skip(1))
    } else {
        decimal(s)
    }
}

/// A signed number as text: at least one decimal digit, with or without a
/// plus or minus sign in front.
pub open spec fn is_signed(s: Seq<char>) -> bool {
    if s.len() > 0 && (s[0] == '+' || s[0] == '-') {
        s.len() > 1 && all_digits(s.skip(1))
    } else {
        s.len() > 0 && all_digits(s)
    }
}

/// The value of a signed number given as text.
pub open spec fn signed_value(s: Seq<char>) -> int {
    if s.len() > 0 && s[0] == '-' {
        -decimal(s.skip(1))
    } else if s.len() > 0 && s[0] == '+' {
        decimal(s.skip(1))
    } else {
        decimal(s)
    }
}

/// The value of a digit sequence is not negative.
pub proof fn lemma_decimal_nonnegative(s: Seq<char>)
    requires
        all_digits(s),
    ensures
        decimal(s) >= 0,
    decreases s.len(),
{
    if s.len() > 0 {
        lemma_decimal_nonnegative(s.drop_last());
    }
}

/// Scans `chars[from..to]` as a digit sequence. `Some(v)` where it consists
/// of digits only and its value `v` is at most `limit`; otherwise `None`.
fn scan_digits(chars: &Vec<char>, from: usize, to: usize, limit: u64) -> (r: Option<u64>)
    requires
        from <= to <= chars.len(),
    ensures
        ({
            let s = chars@.subrange(from as int, to as int);
            match r {
                Some(v) => all_digits(s) && v == decimal(s) && v <= limit,
                None => !(all_digits(s) && decimal(s) <= limit),
            }
        }),
{
    let ghost whole = chars@.subrange(from as int, to as int);
    let mut value: u64 = 0;
    let mut i: usize = from;
    while i < to
        invariant
            from <= i <= to <= chars.len(),
            whole == chars@.subrange(from as int, to as int),
            all_digits(chars@.subrange(from as int, i as int)),
            value == decimal(chars@.subrange(from as int, i as int)),
            value <= limit,
        decreases to - i,
    {
        let c = chars[i];
        let ghost before = chars@.subrange(from as int, i as int);
        let ghost upto = chars@.subrange(from as int, i + 1);
        proof {
            assert(upto.drop_last() =~= before);
            assert(upto.last() == c);
        }
        if !('0' <= c && c <= '9') {
            proof {
                assert(whole[i - from] == c);
            }
            return None;
        }
        let d: u64 = (c as u32 - '0' as u32) as u64;
        if d > limit || value > (limit - d) / 10 {
            proof {
                assert(decimal(upto) > limit);
                assert(whole.take(i + 1 - from) =~= upto);
                if all_digits(whole) {
                    lemma_decimal_prefix(whole, i + 1 - from);
                }
            }
            return None;
        }
        value = value * 10 + d;
        proof {
            assert forall|k: int| 0 <= k < upto.len() implies is_digit(#[trigger] upto[k]) by {
                if k < before.len() {
                    assert(upto[k] == before[k]);
                }
            }
        }
        i += 1;
    }
    proof {
        assert(chars@.subrange(from as int, i as int) =~= whole);
    }
    Some(value)
}

/// A prefix of a digit sequence stands for no larger a number than the whole.
pub proof fn lemma_decimal_prefix(s: Seq<char>, n: int)
    requires
        0 <= n <= s.len(),
        all_digits(s),
    ensures
        decimal(s.take(n)) <= decimal(s),
    decreases s.len() - n,
{
    if n < s.len() {
        lemma_decimal_prefix(s, n + 1);
        assert(s.take(n + 1).drop_last() =~= s.take(n));
        assert forall|i: int| 0 <= i < s.take(n).len() implies is_digit(#[trigger] s.take(n)[i]) by {
            assert(s.take(n)[i] == s[i]);
        }
        lemma_decimal_nonnegative(s.take(n));
        assert(is_digit(s[n]));
    } else {
        assert(s.take(n) =~= s);
    }
}

/// Reads `chars[from..to]` as an unsigned number. `Some(v)` where the text is
/// an unsigned number whose value `v` is at most `limit`; otherwise `None`.
pub fn parse_unsigned(chars: &Vec<char>, from: usize, to: usize, limit: u64) -> (r: Option<u64>)
    requires
        from <= to <= chars.len(),
    ensures
        ({
            let s = chars@.subrange(from as int, to as int);
            match r {
                Some(v) => is_unsigned(s) && v == unsigned_value(s) && v <= limit,
                None => !(is_unsigned(s) && unsigned_value(s) <= limit),
            }
        }),
{
    let ghost s = chars@.subrange(from as int, to as int);
    if from == to {
        return None;
    }
    if chars[from] == '+' {
        assert(s.skip(1) =~= chars@.subrange(from + 1, to as int));
        if from + 1 == to {
            return None;
        }
        scan_digits(chars, from + 1, to, limit)
    } else {
        scan_digits(chars, from, to, limit)
    }
}

/// Reads `chars[from..to]` as a signed number. `Some(v)` where the text is a
/// signed number whose value `v` fits; otherwise `None`.
pub fn parse_signed(chars: &Vec<char>, from: usize, to: usize) -> (r: Option<i64>)
    requires
        from <= to <= chars.len(),
    ensures
        ({
            let s = chars@.subrange(from as int, to as int);
            match r {
                Some(v) => is_signed(s) && v == signed_value(s),
                None => !(is_signed(s) && i64::MIN <= signed_value(s) <= i64::MAX),
            }
        }),
{
    let ghost s = chars@.subrange(from as int, to as int);
    if from == to {
        return None;
    }
    let first = chars[from];
    if first == '-' || first == '+' {
        assert(s.skip(1) =~= chars@.subrange(from + 1, to as int));
        if from + 1 == to {
            return None;
        }
        if first == '-' {
            proof {
                if all_digits(s.skip(1)) {
                    lemma_decimal_nonnegative(s.skip(1));
                }
            }
            match scan_digits(chars, from + 1, to, 9223372036854775808u64) {
                Some(v) => if v == 9223372036854775808u64 {
                    Some(i64::MIN)
                } else {
                    Some(-(v as i64))
                },
                None => None,
            }
        } else {
            proof {
                if all_digits(s.skip(1)) {
                    lemma_decimal_nonnegative(s.skip(1));
                }
            }
            match scan_digits(chars, from + 1, to, 9223372036854775807u64) {
                Some(v) => Some(v as i64),
                None => None,
            }
        }
    } else {
        proof {
            if all_digits(s) {
                lemma_decimal_nonnegative(s);
            }
        }
        match scan_digits(chars, from, to, 9223372036854775807u64) {
            Some(v) => Some(v as i64),
            None => None,
        }
    }
}

/// Every piece is a signed number that a memory cell can hold.
pub open spec fn all_cells(pieces: Seq<Seq<char>>) -> bool {
    forall|i: int|
        0 <= i < pieces.len() ==> is_signed(#[trigger] pieces[i]) && i64::MIN <= signed_value(
            pieces[i],
        ) <= i64::MAX
}

/// Reads a program image: signed numbers separated by commas, with or
/// without white space around the whole. `None` where a piece between two
/// commas is not a number that a memory cell can hold.
pub fn parse_program(text: &str) -> (program: Option<Vec<i64>>)
    ensures
        match program {
            Some(cells) => {
                &&& all_cells(split(trim(text@), ','))
                &&& cells@.len() == split(trim(text@), ',').len()
                &&& forall|i: int|
                    0 <= i < cells@.len() ==> #[trigger] cells@[i] == signed_value(
                        split(trim(text@), ',')[i],
                    )
            },
            None => !all_cells(split(trim(text@), ',')),
        },
{
    let chars = chars_of(text);
    let (start, end) = trim_bounds(&chars, 0, chars.len());
    assert(chars@.subrange(0, chars@.len() as int) =~= chars@);
    let bounds = split_bounds(&chars, start, end, ',');
    let ghost parts = split(trim(text@), ',');
    let mut cells: Vec<i64> = Vec::new();
    let mut k: usize = 0;
    while k < bounds.len()
        invariant
            k <= bounds.len(),
            parts == split(trim(text@), ','),
            parts == pieces(chars@, bounds@),
            bounds_within(bounds@, start as int, end as int),
            end <= chars.len(),
            cells@.len() == k,
            forall|i: int|
                0 <= i < k ==> is_signed(#[trigger] parts[i]) && i64::MIN <= signed_value(
                    parts[i],
                ) <= i64::MAX,
            forall|i: int| 0 <= i < k ==> #[trigger] cells@[i] == signed_value(parts[i]),
        decreases bounds.len() - k,
    {
        let (from, to) = bounds[k];
        assert(parts[k as int] == chars@.subrange(from as int, to as int));
        match parse_signed(&chars, from, to) {
            Some(v) => cells.push(v),
            None => {
                assert(parts.len() == bounds@.len());
                assert(!(is_signed(parts[k as int]) && i64::MIN <= signed_value(parts[k as int])
                    <= i64::MAX));
                return None;
            },
        }
        k += 1;
    }
    Some(cells)
}

/// The digit that stands for `d`.
pub open spec fn digit_char(d: int) -> char {
    if d == 0 {
        '0'
    } else if d == 1 {
        '1'
    } else if d == 2 {
        '2'
    } else if d == 3 {
        '3'
    } else if d == 4 {
        '4'
    } else if d == 5 {
        '5'
    } else if d == 6 {
        '6'
    } else if d == 7 {
        '7'
    } else if d == 8 {
        '8'
    } else {
        '9'
    }
}

/// The decimal digits of `n`, without leading zeros.
pub open spec fn digits_of(n: nat) -> Seq<char>
    decreases n,
{
    if n < 10 {
        seq![digit_char(n as int)]
    } else {
        digits_of(n / 10).push(digit_char((n % 10) as int))
    }
}

/// `v` in decimal, with a minus sign where it is negative.
pub open spec fn number_text(v: int) -> Seq<char> {
    if v < 0 {
        seq!['-'] + digits_of((-v) as nat)
    } else {
        digits_of(v as nat)
    }
}

/// `s` with as many spaces in front as it takes to make it `width` long.
pub open spec fn padded(s: Seq<char>, width: nat) -> Seq<char> {
    if s.len() < width {
        Seq::new((width - s.len()) as nat, |i: int| ' ') + s
    } else {
        s
    }
}

/// What `digits_of` writes, `decimal` reads back.
pub proof fn lemma_digits_round_trip(n: nat)
    ensures
        all_digits(digits_of(n)),
        decimal(digits_of(n)) == n,
    decreases n,
{
    if n < 10 {
        let s = digits_of(n);
        assert(s.drop_last() =~= Seq::<char>::empty());
        assert(decimal(s.drop_last()) == 0);
    } else {
        lemma_digits_round_trip(n / 10);
        let s = digits_of(n);
        assert(s.drop_last() =~= digits_of(n / 10));
        assert forall|i: int| 0 <= i < s.len() implies is_digit(#[trigger] s[i]) by {
            if i < s.len() - 1 {
                assert(s[i] == digits_of(n / 10)[i]);
            }
        }
    }
}

/// The digit that stands for `d`.
pub fn digit(d: u64) -> (c: char)
    requires
        d < 10,
    ensures
        c == digit_char(d as int),
{
    if d == 0 {
        '0'
    } else if d == 1 {
        '1'
    } else if d == 2 {
        '2'
    } else if d == 3 {
        '3'
    } else if d == 4 {
        '4'
    } else if d == 5 {
        '5'
    } else if d == 6 {
        '6'
    } else if d == 7 {
        '7'
    } else if d == 8 {
        '8'
    } else {
        '9'
    }
}

/// Appends `v` in decimal to `out`, with spaces in front where it is shorter
/// than `width`.
pub fn push_number(out: &mut Vec<char>, v: i64, width: usize)
    ensures
        final(out)@ == old(out)@ + padded(number_text(v as int), width as nat),
{
    let magnitude: u64 = if v < 0 {
        if v == i64::MIN {
            9223372036854775808u64
        } else {
            (-v) as u64
        }
    } else {
        v as u64
    };
    let mut reversed: Vec<char> = Vec::new();
    let mut m: u64 = magnitude;
    while m >= 10
        invariant
            digits_of(magnitude as nat) == digits_of(m as nat) + Seq::new(
                reversed@.len(),
                |i: int| reversed@[reversed@.len() - 1 - i],
            ),
        decreases m,
    {
        let ghost before = reversed@;
        reversed.push(digit(m % 10));
        proof {
            let tail = Seq::new(before.len(), |i: int| before[before.len() - 1 - i]);
            let longer = Seq::new(reversed@.len(), |i: int| reversed@[reversed@.len() - 1 - i]);
            assert(longer =~= seq![digit_char((m % 10) as int)] + tail);
            assert(digits_of(m as nat) + tail =~= digits_of((m / 10) as nat) + longer);
        }
        m = m / 10;
    }
    let ghost before = reversed@;
    reversed.push(digit(m));
    if v < 0 {
        reversed.push('-');
    }
    let ghost text = number_text(v as int);
    proof {
        let tail = Seq::new(before.len(), |i: int| before[before.len() - 1 - i]);
        assert(digits_of(magnitude as nat) =~= seq![digit_char(m as int)] + tail);
        assert(text =~= Seq::new(reversed@.len(), |i: int| reversed@[reversed@.len() - 1 - i]));
    }
    let ghost start = out@;
    let mut pad: usize = reversed.len();
    while pad < width
        invariant
            reversed@.len() <= pad,
            pad == reversed@.len() || pad <= width,
            out@ == start + Seq::new((pad - reversed@.len()) as nat, |i: int| ' '),
        decreases width - pad,
    {
        out.push(' ');
        pad += 1;
        assert(out@ =~= start + Seq::new((pad - reversed@.len()) as nat, |i: int| ' '));
    }
    let ghost spaced = out@;
    assert(text.len() == reversed@.len());
    assert(spaced =~= start + padded(text, width as nat).take(
        padded(text, width as nat).len() - text.len(),
    ));
    let mut k: usize = reversed.len();
    while k > 0
        invariant
            k <= reversed@.len(),
            text == Seq::new(reversed@.len(), |i: int| reversed@[reversed@.len() - 1 - i]),
            spaced == start + padded(text, width as nat).take(
                padded(text, width as nat).len() - text.len(),
            ),
            out@ == spaced + text.take(reversed@.len() - k),
        decreases k,
    {
        k -= 1;
        out.push(reversed[k]);
        assert(out@ =~= spaced + text.take(reversed@.len() - k));
    }
    proof {
        assert(text.take(text.len() as int) =~= text);
        assert(out@ =~= start + padded(text, width as nat));
    }
}

/// Appends the characters of `s` to `out`.
pub fn push_text(out: &mut Vec<char>, s: &str)
    ensures
        final(out)@ == old(out)@ + s@,
{
    let ghost start = out@;
    for c in it: s.chars()
        invariant
            out@ == start + it.seq().take(it.index() as int),
            it.seq() == s@,
    {
        out.push(c);
        assert(it.seq().take(it.index() + 1) =~= it.seq().take(it.index() as int).push(c));
    }
    assert(s@.take(s@.len() as int) =~= s@);
}

/// The position of the first `name` in `names`, or the length of `names`
/// where it holds none.
pub open spec fn find(names: Seq<Seq<char>>, name: Seq<char>) -> int
    decreases names.len(),
{
    if names.len() == 0 || names[0] == name {
        0
    } else {
        1 + find(names.drop_first(), name)
    }
}

/// `find` stays within the list, and finds `name` where the list holds it.
pub proof fn lemma_find(names: Seq<Seq<char>>, name: Seq<char>)
    ensures
        0 <= find(names, name) <= names.len(),
        find(names, name) < names.len() ==> names[find(names, name)] == name,
        find(names, name) == names.len() ==> !names.contains(name),
        forall|k: int| 0 <= k < find(names, name) ==> names[k] != name,
    decreases names.len(),
{
    if names.len() > 0 && names[0] != name {
        let rest = names.drop_first();
        lemma_find(rest, name);
        assert forall|k: int| 0 <= k < find(names, name) implies names[k] != name by {
            if k > 0 {
                assert(rest[k - 1] == names[k]);
            }
        }
        if find(names, name) == names.len() {
            assert forall|k: int| 0 <= k < names.len() implies names[k] != name by {}
        } else {
            assert(rest[find(rest, name)] == names[find(rest, name) + 1]);
        }
    }
}

/// The names that a list of character vectors holds.
pub open spec fn names_of(v: Seq<Vec<char>>) -> Seq<Seq<char>> {
    Seq::new(v.len(), |i: int| v[i]@)
}

/// Tells whether two names are the same.
pub fn same_name(a: &Vec<char>, b: &Vec<char>) -> (same: bool)
    ensures
        same == (a@ == b@),
{
    if a.len() != b.len() {
        return false;
    }
    let mut i: usize = 0;
    while i < a.len()
        invariant
            i <= a.len(),
            a.len() == b.len(),
            forall|k: int| 0 <= k < i ==> a@[k] == b@[k],
        decreases a.len() - i,
    {
        if a[i] != b[i] {
            return false;
        }
        i += 1;
    }
    assert(a@ =~= b@);
    true
}

/// Finds the first place of `name` in `names`.
pub fn position_of(names: &Vec<Vec<char>>, name: &Vec<char>) -> (found: Option<usize>)
    ensures
        match found {
            Some(i) => i < names.len() && i == find(names_of(names@), name@) && names_of(
                names@,
            ).contains(name@),
            None => !names_of(names@).contains(name@),
        },
{
    let ghost list = names_of(names@);
    proof {
        lemma_find(list, name@);
    }
    let mut i: usize = 0;
    while i < names.len()
        invariant
            i <= names.len(),
            list == names_of(names@),
            i <= find(list, name@),
        decreases names.len() - i,
    {
        proof {
            lemma_find(list, name@);
        }
        if same_name(&names[i], name) {
            assert(list[i as int] == name@);
            return Some(i);
        }
        assert(list[i as int] != name@);
        i += 1;
    }
    proof {
        lemma_find(list, name@);
    }
    None
}

/// A copy of `chars[from..to]`.
pub fn copy_range(chars: &Vec<char>, from: usize, to: usize) -> (copy: Vec<char>)
    requires
        from <= to <= chars.len(),
    ensures
        copy@ == chars@.subrange(from as int, to as int),
{
    let mut copy: Vec<char> = Vec::new();
    let mut i: usize = from;
    while i < to
        invariant
            from <= i <= to <= chars.len(),
            copy@ == chars@.subrange(from as int, i as int),
        decreases to - i,
    {
        copy.push(chars[i]);
        assert(copy@ =~= chars@.subrange(from as int, i + 1));
        i += 1;
    }
    copy
}

/// `s` without the characters `c` in it.
pub open spec fn without(s: Seq<char>, c: char) -> Seq<char>
    decreases s.len(),
{
    if s.len() == 0 {
        s
    } else if s.last() == c {
        without(s.drop_last(), c)
    } else {
        without(s.drop_last(), c).push(s.last())
    }
}

/// A copy of `chars` without the characters `c` in it.
pub fn remove_all(chars: &Vec<char>, c: char) -> (kept: Vec<char>)
    ensures
        kept@ == without(chars@, c),
{
    let mut kept: Vec<char> = Vec::new();
    let mut i: usize = 0;
    assert(chars@.take(0) =~= Seq::empty());
    while i < chars.len()
        invariant
            i <= chars.len(),
            kept@ == without(chars@.take(i as int), c),
        decreases chars.len() - i,
    {
        assert(chars@.take(i + 1).drop_last() =~= chars@.take(i as int));
        if chars[i] != c {
            kept.push(chars[i]);
        }
        i += 1;
    }
    assert(chars@.take(i as int) =~= chars@);
    kept
}

/// The texts that a list of strings holds.
pub open spec fn texts_of(v: Seq<String>) -> Seq<Seq<char>> {
    Seq::new(v.len(), |i: int| v[i]@)
}

/// The lines of `text`.
pub fn lines_of(text: &str) -> (list: Vec<String>)
    ensures
        texts_of(list@) == lines(text@),
{
    let chars = chars_of(text);
    let bounds = line_bounds(&chars);
    let mut list: Vec<String> = Vec::new();
    let mut k: usize = 0;
    while k < bounds.len()
        invariant
            k <= bounds.len(),
            chars@ == text@,
            bounds_within(bounds@, 0, chars.len() as int),
            list@.len() == k,
            forall|i: int| 0 <= i < k ==> (#[trigger] list@[i])@ == pieces(chars@, bounds@)[i],
        decreases bounds.len() - k,
    {
        let (from, to) = bounds[k];
        let line = copy_range(&chars, from, to);
        list.push(string_of(&line));
        k += 1;
    }
    assert(texts_of(list@) =~= lines(text@));
    list
}

/// Calls `Iterator::collect` on the characters to make a `String` of them:
/// the string holds those characters, in that order.
#[verifier::external_body]
pub(crate) fn string_of(chars: &Vec<char>) -> (s: String)
    ensures
        s@ == chars@,
{
    chars.iter().collect()
}

} // verus!
