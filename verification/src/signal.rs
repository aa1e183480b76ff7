//! Cleaning up a signal of digits by repeated phases of a transform.

use vstd::prelude::*;
use crate::text::{
    all_digits, chars_of, digit, digit_char, digit_value, string_of, trim, trim_bounds,
};

verus! {

/// The absolute value of `v`.
pub open spec fn abs(v: int) -> int {
    if v < 0 {
        -v
    } else {
        v
    }
}

/// The repeating pattern that everything starts from: 0, 1, 0, -1.
pub open spec fn base_pattern(k: int) -> int {
    if k % 4 == 1 {
        1
    } else if k % 4 == 3 {
        -1
    } else {
        0
    }
}

/// Entry `i` of the pattern for output position `pos`: each value of the
/// base pattern repeated `pos` times, and the very first entry left out.
pub open spec fn pattern_at(pos: int, i: int) -> int {
    base_pattern((i + 1) / pos)
}

/// The sum of the first `n` digits of `input`, each added where the pattern
/// for position `pos` holds 1, subtracted where it holds -1, and left out
/// where it holds 0.
pub open spec fn weighted_sum(input: Seq<i32>, pos: int, n: int) -> int
    decreases n,
{
    if n <= 0 {
        0
    } else {
        let p = pattern_at(pos, n - 1);
        weighted_sum(input, pos, n - 1) + if p == 1 {
            input[n - 1] as int
        } else if p == -1 {
            -(input[n - 1] as int)
        } else {
            0
        }
    }
}

/// The digit at position `pos`, counted from one, of the transformed signal:
/// the last digit of the weighted sum.
pub open spec fn fft_digit(input: Seq<i32>, pos: int) -> int {
    abs(weighted_sum(input, pos, input.len() as int)) % 10
}

/// The transformed signal.
pub open spec fn fft_spec(input: Seq<i32>) -> Seq<i32> {
    Seq::new(input.len(), |k: int| fft_digit(input, k + 1) as i32)
}

/// Every sum that the transform forms on the way can be held.
pub open spec fn can_fft(input: Seq<i32>) -> bool {
    forall|pos: int, n: int|
        1 <= pos <= input.len() && 0 <= n <= input.len() ==> -i32::MAX <= #[trigger] weighted_sum(
            input,
            pos,
            n,
        ) <= i32::MAX
}

/// The signal after `num` phases of the transform.
pub open spec fn phases_spec(input: Seq<i32>, num: nat) -> Seq<i32>
    decreases num,
{
    if num == 0 {
        input
    } else {
        phases_spec(fft_spec(input), (num - 1) as nat)
    }
}

/// Each of `num` phases can be carried out.
pub open spec fn can_phases(input: Seq<i32>, num: nat) -> bool
    decreases num,
{
    num == 0 || (can_fft(input) && can_phases(fft_spec(input), (num - 1) as nat))
}

/// Every entry of `input` is a single digit.
pub open spec fn is_signal(input: Seq<i32>) -> bool {
    forall|i: int| 0 <= i < input.len() ==> 0 <= #[trigger] input[i] <= 9
}

/// The weighted sums of a signal of digits are no larger than nine times the
/// number of digits summed.
pub proof fn lemma_weighted_sum_bound(input: Seq<i32>, pos: int, n: int)
    requires
        is_signal(input),
        0 <= n <= input.len(),
    ensures
        -9 * n <= weighted_sum(input, pos, n) <= 9 * n,
    decreases n,
{
    if n > 0 {
        lemma_weighted_sum_bound(input, pos, n - 1);
        assert(0 <= input[n - 1] <= 9);
    }
}

/// A signal of digits that is not absurdly long can go through any number of
/// phases.
pub proof fn lemma_signal_can_phases(input: Seq<i32>, num: nat)
    requires
        is_signal(input),
        9 * input.len() <= i32::MAX,
    ensures
        can_phases(input, num),
        is_signal(phases_spec(input, num)),
        phases_spec(input, num).len() == input.len(),
    decreases num,
{
    if num > 0 {
        assert forall|pos: int, n: int|
            1 <= pos <= input.len() && 0 <= n <= input.len() implies -i32::MAX
            <= #[trigger] weighted_sum(input, pos, n) <= i32::MAX by {
            lemma_weighted_sum_bound(input, pos, n);
        }
        lemma_signal_can_phases(fft_spec(input), (num - 1) as nat);
    }
}

/// The pattern for output position `pos`, `len` entries long. There is no
/// pattern for position zero.
pub fn generate_pattern(len: usize, pos: usize) -> (pattern: Vec<i32>)
    ensures
        pos == 0 ==> pattern@.len() == 0,
        pos > 0 ==> pattern@.len() == len,
        pos > 0 ==> forall|i: int|
            0 <= i < len ==> #[trigger] pattern@[i] == pattern_at(pos as int, i),
{
    let mut pattern: Vec<i32> = Vec::new();
    if pos == 0 {
        return pattern;
    }
    let mut i: usize = 0;
    while i < len
        invariant
            pos > 0,
            i <= len,
            pattern@.len() == i,
            forall|k: int| 0 <= k < i ==> #[trigger] pattern@[k] == pattern_at(pos as int, k),
        decreases len - i,
    {
        let k: usize = ((i + 1) / pos) % 4;
        let value: i32 = if k == 1 {
            1
        } else if k == 3 {
            -1
        } else {
            0
        };
        pattern.push(value);
        i += 1;
    }
    pattern
}

/// One phase of the transform.
pub fn fft(input: &Vec<i32>) -> (output: Vec<i32>)
    requires
        can_fft(input@),
    ensures
        output@ == fft_spec(input@),
{
    let mut output: Vec<i32> = Vec::new();
    let n = input.len();
    let mut done: usize = 0;
    while done < n
        invariant
            done <= n,
            n == input@.len(),
            can_fft(input@),
            output@.len() == done,
            forall|k: int| 0 <= k < done ==> #[trigger] output@[k] == fft_digit(input@, k + 1),
        decreases n - done,
    {
        let pos: usize = done + 1;
        let pattern = generate_pattern(n, pos);
        let mut acc: i32 = 0;
        let mut i: usize = 0;
        while i < n
            invariant
                1 <= pos <= n,
                i <= n,
                n == input@.len(),
                can_fft(input@),
                pattern@.len() == n,
                forall|k: int| 0 <= k < n ==> #[trigger] pattern@[k] == pattern_at(pos as int, k),
                acc == weighted_sum(input@, pos as int, i as int),
            decreases n - i,
        {
            let p = pattern[i];
            assert(-i32::MAX <= weighted_sum(input@, pos as int, i + 1) <= i32::MAX);
            if p != 0 {
                if p < 0 {
                    acc = acc - input[i];
                } else {
                    acc = acc + input[i];
                }
            }
            i += 1;
        }
        assert(-i32::MAX <= weighted_sum(input@, pos as int, n as int) <= i32::MAX);
        let magnitude: i32 = if acc < 0 {
            -acc
        } else {
            acc
        };
        output.push(magnitude % 10);
        done += 1;
    }
    assert(output@ =~= fft_spec(input@));
    output
}

/// Puts the signal through `num` phases of the transform.
pub fn phases(input: &mut Vec<i32>, num: usize)
    requires
        can_phases(old(input)@, num as nat),
    ensures
        final(input)@ == phases_spec(old(input)@, num as nat),
{
    let mut k: usize = 0;
    while k < num
        invariant
            k <= num,
            can_phases(input@, (num - k) as nat),
            phases_spec(input@, (num - k) as nat) == phases_spec(old(input)@, num as nat),
        decreases num - k,
    {
        *input = fft(input);
        k += 1;
    }
}

/// The digits that `numstr` spells, white space around them set aside.
pub fn num_to_vec(numstr: &str) -> (digits: Vec<i32>)
    requires
        all_digits(trim(numstr@)),
    ensures
        digits@.len() == trim(numstr@).len(),
        forall|i: int|
            0 <= i < digits@.len() ==> #[trigger] digits@[i] == digit_value(trim(numstr@)[i]),
{
    let chars = chars_of(numstr);
    let (start, end) = trim_bounds(&chars, 0, chars.len());
    assert(chars@.subrange(0, chars@.len() as int) =~= chars@);
    let ghost text = trim(numstr@);
    let mut digits: Vec<i32> = Vec::new();
    let mut i: usize = start;
    while i < end
        invariant
            start <= i <= end <= chars.len(),
            text == chars@.subrange(start as int, end as int),
            all_digits(text),
            digits@.len() == i - start,
            forall|k: int| 0 <= k < i - start ==> #[trigger] digits@[k] == digit_value(text[k]),
        decreases end - i,
    {
        let c = chars[i];
        assert(text[i - start] == c);
        digits.push((c as u32 - '0' as u32) as i32);
        i += 1;
    }
    digits
}

/// The sum of the entries of `input` from position `from` to the end.
pub open spec fn suffix_sum(input: Seq<i32>, from: int) -> int
    decreases input.len() - from,
{
    if from >= input.len() || from < 0 {
        0
    } else {
        input[from] + suffix_sum(input, from + 1)
    }
}

/// A phase of the transform for the back half of a signal: each digit
/// becomes the last digit of the sum of itself and all digits behind it.
pub fn part_two(input: &Vec<i32>) -> (output: Vec<i32>)
    requires
        forall|i: int| 0 <= i < input.len() ==> 0 <= #[trigger] input[i] <= i32::MAX - 9,
    ensures
        output@.len() == input@.len(),
        forall|i: int|
            0 <= i < input.len() ==> #[trigger] output@[i] == suffix_sum(input@, i) % 10,
        output@ == part_two_spec(input@),
        is_signal(output@),
{
    let n = input.len();
    let mut output: Vec<i32> = Vec::new();
    let mut k: usize = 0;
    while k < n
        invariant
            k <= n,
            output@.len() == k,
        decreases n - k,
    {
        output.push(0);
        k += 1;
    }
    let mut state: i32 = 0;
    let mut i: usize = n;
    while i > 0
        invariant
            i <= n,
            n == input@.len(),
            output@.len() == n,
            forall|j: int| 0 <= j < input.len() ==> 0 <= #[trigger] input[j] <= i32::MAX - 9,
            0 <= state <= 9,
            state == suffix_sum(input@, i as int) % 10,
            forall|j: int| i <= j < n ==> #[trigger] output@[j] == suffix_sum(input@, j) % 10,
        decreases i,
    {
        i -= 1;
        assert(0 <= input[i as int] <= i32::MAX - 9);
        state = (state + input[i]) % 10;
        output[i] = state;
    }
    assert(output@ =~= part_two_spec(input@));
    output
}

/// The signal after one phase for the back half.
pub open spec fn part_two_spec(input: Seq<i32>) -> Seq<i32> {
    Seq::new(input.len(), |i: int| (suffix_sum(input, i) % 10) as i32)
}

/// The signal after `rounds` phases for the back half.
pub open spec fn part_two_rounds_spec(input: Seq<i32>, rounds: nat) -> Seq<i32>
    decreases rounds,
{
    if rounds == 0 {
        input
    } else {
        part_two_rounds_spec(part_two_spec(input), (rounds - 1) as nat)
    }
}

/// Puts the signal through `rounds` phases for the back half.
pub fn part_two_rounds(input: &mut Vec<i32>, rounds: usize)
    requires
        is_signal(old(input)@),
    ensures
        final(input)@ == part_two_rounds_spec(old(input)@, rounds as nat),
        is_signal(final(input)@),
{
    let mut k: usize = 0;
    while k < rounds
        invariant
            k <= rounds,
            is_signal(input@),
            part_two_rounds_spec(input@, (rounds - k) as nat) == part_two_rounds_spec(
                old(input)@,
                rounds as nat,
            ),
        decreases rounds - k,
    {
        *input = part_two(input);
        k += 1;
    }
}

/// The number that the first `upto` digits spell.
pub open spec fn number_of(digits: Seq<i32>, upto: int) -> int
    decreases upto,
{
    if upto <= 0 {
        0
    } else {
        number_of(digits, upto - 1) * 10 + digits[upto - 1]
    }
}

/// Ten to the power of `k`, for `k` up to seven.
pub open spec fn ten_to(k: int) -> int {
    if k <= 0 {
        1
    } else if k == 1 {
        10
    } else if k == 2 {
        100
    } else if k == 3 {
        1000
    } else if k == 4 {
        10000
    } else if k == 5 {
        100000
    } else if k == 6 {
        1000000
    } else {
        10000000
    }
}

/// Where the message starts: the number that the first seven digits spell.
pub fn offset_of(input: &Vec<i32>) -> (offset: usize)
    requires
        input.len() >= 7,
        is_signal(input@),
    ensures
        offset == number_of(input@, 7),
{
    let mut acc: i32 = 0;
    let mut k: usize = 0;
    while k < 7
        invariant
            k <= 7,
            input.len() >= 7,
            is_signal(input@),
            acc == number_of(input@, k as int),
            0 <= acc < ten_to(k as int),
        decreases 7 - k,
    {
        assert(0 <= input@[k as int] <= 9);
        assert(ten_to(k + 1) == 10 * ten_to(k as int));
        acc = acc * 10 + input[k];
        k += 1;
    }
    acc as usize
}

/// The signal repeated `times` times, from place `offset` on.
pub open spec fn repeated_tail_spec(input: Seq<i32>, times: nat, offset: nat) -> Seq<i32> {
    if offset >= input.len() * times {
        Seq::empty()
    } else {
        Seq::new(
            (input.len() * times - offset) as nat,
            |j: int| input[(offset + j) % (input.len() as int)],
        )
    }
}

/// Repeats the signal `times` times and returns the result from place
/// `offset` on.
pub fn repeated_tail(input: &Vec<i32>, times: usize, offset: usize) -> (tail: Vec<i32>)
    requires
        input.len() * times <= usize::MAX,
    ensures
        tail@ == repeated_tail_spec(input@, times as nat, offset as nat),
{
    let n = input.len();
    let size = n * times;
    let mut tail: Vec<i32> = Vec::new();
    if offset >= size {
        return tail;
    }
    assert(n > 0) by (nonlinear_arith)
        requires
            offset < n * times,
    ;
    let mut i: usize = offset;
    while i < size
        invariant
            n == input@.len(),
            n > 0,
            offset <= i <= size,
            tail@.len() == i - offset,
            forall|j: int| 0 <= j < i - offset ==> #[trigger] tail@[j] == input@[(offset + j) % (n as int)],
        decreases size - i,
    {
        tail.push(input[i % n]);
        i += 1;
    }
    assert(tail@ =~= repeated_tail_spec(input@, times as nat, offset as nat));
    tail
}

/// The first eight digits of the signal as text.
pub fn to_str(num: &Vec<i32>) -> (s: String)
    requires
        num.len() >= 8,
        is_signal(num@),
    ensures
        s@ == Seq::new(8, |i: int| digit_char(num@[i] as int)),
{
    let mut chars: Vec<char> = Vec::new();
    let mut k: usize = 0;
    while k < 8
        invariant
            k <= 8,
            num.len() >= 8,
            is_signal(num@),
            chars@.len() == k,
            forall|i: int| 0 <= i < k ==> #[trigger] chars@[i] == digit_char(num@[i] as int),
        decreases 8 - k,
    {
        assert(0 <= num@[k as int] <= 9);
        chars.push(digit(num[k] as u64));
        k += 1;
    }
    assert(chars@ =~= Seq::new(8, |i: int| digit_char(num@[i] as int)));
    string_of(&chars)
}

} // verus!
