//! Pictures sent as a stack of layers of digits.

use vstd::prelude::*;
use vstd::slice::slice_subrange;
use crate::text::{all_digits, chars_of, digit_value, string_of, texts_of, trim, trim_bounds};

verus! {

/// The digit that lets the layer below show through.
pub const TRANSPARENT: u32 = 2;

/// How often `digit` occurs in `layer`.
pub open spec fn occurrences(layer: Seq<u32>, digit: u32) -> nat
    decreases layer.len(),
{
    if layer.len() == 0 {
        0
    } else {
        occurrences(layer.drop_last(), digit) + if layer.last() == digit {
            1nat
        } else {
            0nat
        }
    }
}

/// No digit occurs more often than the layer is long.
pub proof fn lemma_occurrences_bound(layer: Seq<u32>, digit: u32)
    ensures
        occurrences(layer, digit) <= layer.len(),
    decreases layer.len(),
{
    if layer.len() > 0 {
        lemma_occurrences_bound(layer.drop_last(), digit);
    }
}

/// The pixel seen where `top` lies over `bottom`.
pub open spec fn combined_pixel(top: u32, bottom: u32) -> u32 {
    if top == TRANSPARENT {
        bottom
    } else {
        top
    }
}

/// The picture seen where `image` lies over `layer`: as far as both reach,
/// pixel by pixel; beyond that, `image` as it is.
pub open spec fn combined(image: Seq<u32>, layer: Seq<u32>) -> Seq<u32> {
    Seq::new(
        image.len(),
        |i: int|
            if i < layer.len() {
                combined_pixel(image[i], layer[i])
            } else {
                image[i]
            },
    )
}

/// Counts how often `digit` occurs in `layer`. Of a count too large for the
/// result, the low 32 bits are returned.
pub fn count_digits(layer: &[u32], digit: u32) -> (count: u32)
    ensures
        count == occurrences(layer@, digit) % 4294967296,
        layer@.len() <= u32::MAX ==> count == occurrences(layer@, digit),
{
    let mut found: usize = 0;
    let mut i: usize = 0;
    while i < layer.len()
        invariant
            i <= layer@.len(),
            found == occurrences(layer@.take(i as int), digit),
            found <= i,
        decreases layer@.len() - i,
    {
        assert(layer@.take(i + 1).drop_last() =~= layer@.take(i as int));
        if layer[i] == digit {
            found += 1;
        }
        i += 1;
    }
    assert(layer@.take(i as int) =~= layer@);
    ((found as u64) % 4294967296) as u32
}

/// Lays `image` over `layer`: where `image` is transparent, the pixel of
/// `layer` shows.
pub fn combine_layers(layer: &[u32], image: &mut [u32])
    ensures
        final(image)@ == combined(old(image)@, layer@),
{
    let ghost start = image@;
    let n = if image.len() < layer.len() {
        image.len()
    } else {
        layer.len()
    };
    let mut i: usize = 0;
    while i < n
        invariant
            i <= n,
            n <= layer@.len(),
            n <= start.len(),
            n == start.len() || n == layer@.len(),
            image@.len() == start.len(),
            forall|k: int| 0 <= k < i ==> image@[k] == combined_pixel(start[k], layer@[k]),
            forall|k: int| i <= k < start.len() ==> image@[k] == start[k],
        decreases n - i,
    {
        if image[i] == TRANSPARENT {
            image[i] = layer[i];
        }
        i += 1;
    }
    assert(image@ =~= combined(start, layer@));
}

/// The layers of a picture: one after the other, each `size` pixels long but
/// for the last, which may be shorter.
pub open spec fn layers(image: Seq<u32>, size: nat) -> Seq<Seq<u32>>
    decreases image.len(),
{
    if size == 0 || image.len() == 0 {
        Seq::empty()
    } else if image.len() <= size {
        seq![image]
    } else {
        seq![image.take(size as int)] + layers(image.skip(size as int), size)
    }
}

/// Layer `best` holds no more zeros than any layer, and fewer than every
/// layer before it.
pub open spec fn has_fewest_zeros(all: Seq<Seq<u32>>, best: int) -> bool {
    &&& 0 <= best < all.len()
    &&& forall|j: int|
        0 <= j < all.len() ==> occurrences(all[best], 0) <= occurrences(#[trigger] all[j], 0)
    &&& forall|j: int|
        0 <= j < best ==> occurrences(all[best], 0) < occurrences(#[trigger] all[j], 0)
}

/// What is seen through the first `upto` layers, the first on top, on a
/// ground of `size` transparent pixels.
pub open spec fn composed(all: Seq<Seq<u32>>, size: nat, upto: int) -> Seq<u32>
    decreases upto,
{
    if upto <= 0 {
        Seq::new(size, |i: int| TRANSPARENT)
    } else {
        combined(composed(all, size, upto - 1), all[upto - 1])
    }
}

/// The character that shows a pixel: a full block for one, a blank for
/// anything else.
pub open spec fn pixel_char(pixel: u32) -> char {
    if pixel == 1 {
        '\u{2588}'
    } else {
        ' '
    }
}

/// A row of pixels as text.
pub open spec fn row_text(row: Seq<u32>) -> Seq<char> {
    Seq::new(row.len(), |i: int| pixel_char(row[i]))
}

/// The rows of a picture as text.
pub open spec fn rows_text(all: Seq<Seq<u32>>) -> Seq<Seq<char>> {
    Seq::new(all.len(), |k: int| row_text(all[k]))
}

/// Where the first layer ends: after `size` pixels, or at the end.
pub open spec fn first_cut(len: int, size: int) -> int {
    if len <= size {
        len
    } else {
        size
    }
}

/// The first layer is what stands before the first cut, and the other layers
/// are the layers of what stands behind it.
pub proof fn lemma_layers_unfold(image: Seq<u32>, size: nat)
    requires
        size > 0,
        image.len() > 0,
    ensures
        layers(image, size) == seq![image.take(first_cut(image.len() as int, size as int))]
            + layers(image.skip(first_cut(image.len() as int, size as int)), size),
{
    if image.len() <= size {
        assert(image.take(image.len() as int) =~= image);
        assert(layers(image.skip(image.len() as int), size) =~= Seq::empty());
        assert(seq![image] + Seq::empty() =~= seq![image]);
    }
}

/// The digits that `text` spells, white space around them set aside.
pub fn read_image(text: &str) -> (image: Vec<u32>)
    requires
        all_digits(trim(text@)),
    ensures
        image@.len() == trim(text@).len(),
        forall|i: int|
            0 <= i < image@.len() ==> #[trigger] image@[i] == digit_value(trim(text@)[i]),
{
    let chars = chars_of(text);
    let (start, end) = trim_bounds(&chars, 0, chars.len());
    assert(chars@.subrange(0, chars@.len() as int) =~= chars@);
    let ghost digits = trim(text@);
    let mut image: Vec<u32> = Vec::new();
    let mut i: usize = start;
    while i < end
        invariant
            start <= i <= end <= chars.len(),
            digits == chars@.subrange(start as int, end as int),
            all_digits(digits),
            image@.len() == i - start,
            forall|k: int| 0 <= k < i - start ==> #[trigger] image@[k] == digit_value(digits[k]),
        decreases end - i,
    {
        let c = chars[i];
        assert(digits[i - start] == c);
        image.push(c as u32 - '0' as u32);
        i += 1;
    }
    image
}

/// The number of ones times the number of twos in the layer that holds the
/// fewest zeros, the first such layer where there are several; `None` for a
/// picture without layers.
pub fn checksum(image: &Vec<u32>, size: usize) -> (sum: Option<u32>)
    requires
        size > 0,
        size * size <= u32::MAX,
    ensures
        match sum {
            Some(product) => exists|best: int|
                #![trigger has_fewest_zeros(layers(image@, size as nat), best)]
                has_fewest_zeros(layers(image@, size as nat), best) && product == occurrences(
                    layers(image@, size as nat)[best],
                    2,
                ) * occurrences(layers(image@, size as nat)[best], 1),
            None => layers(image@, size as nat).len() == 0,
        },
{
    let n = image.len();
    if n == 0 {
        return None;
    }
    let ghost all = layers(image@, size as nat);
    let ghost mut done: Seq<Seq<u32>> = Seq::empty();
    let ghost mut best: int = 0;
    let mut fewest: u32 = 0;
    let mut product: u32 = 0;
    let mut start: usize = 0;
    proof {
        assert(image@.skip(0) =~= image@);
    }
    while start < n
        invariant
            size > 0,
            size * size <= u32::MAX,
            n == image@.len(),
            start <= n,
            all == done + layers(image@.skip(start as int), size as nat),
            start > 0 ==> has_fewest_zeros(done, best),
            start > 0 ==> fewest == occurrences(done[best], 0),
            start > 0 ==> product == occurrences(done[best], 2) * occurrences(done[best], 1),
            start == 0 ==> done.len() == 0,
        decreases n - start,
    {
        let end = if n - start <= size {
            n
        } else {
            start + size
        };
        let layer = slice_subrange(image.as_slice(), start, end);
        let ghost rest = image@.skip(start as int);
        proof {
            lemma_layers_unfold(rest, size as nat);
            assert(rest.take(end - start) =~= layer@);
            assert(rest.skip(end - start) =~= image@.skip(end as int));
            assert(all =~= done.push(layer@) + layers(image@.skip(end as int), size as nat));
            lemma_occurrences_bound(layer@, 0);
            lemma_occurrences_bound(layer@, 1);
            lemma_occurrences_bound(layer@, 2);
            assert(layer@.len() <= size);
            assert(size <= size * size) by (nonlinear_arith)
                requires
                    size >= 1,
            ;
        }
        let zeros = count_digits(layer, 0);
        if start == 0 || zeros < fewest {
            let ones = count_digits(layer, 1);
            let twos = count_digits(layer, 2);
            assert(twos * ones <= size * size) by (nonlinear_arith)
                requires
                    0 <= twos <= size,
                    0 <= ones <= size,
            ;
            fewest = zeros;
            product = twos * ones;
            proof {
                let longer = done.push(layer@);
                assert forall|j: int| 0 <= j < longer.len() implies occurrences(
                    longer[done.len() as int],
                    0,
                ) <= occurrences(#[trigger] longer[j], 0) by {
                    if j < done.len() {
                        assert(longer[j] == done[j]);
                    }
                }
                assert forall|j: int| 0 <= j < done.len() implies occurrences(
                    longer[done.len() as int],
                    0,
                ) < occurrences(#[trigger] longer[j], 0) by {
                    assert(longer[j] == done[j]);
                }
                best = done.len() as int;
                done = longer;
            }
        } else {
            proof {
                let longer = done.push(layer@);
                assert(longer[best] == done[best]);
                assert forall|j: int| 0 <= j < longer.len() implies occurrences(longer[best], 0)
                    <= occurrences(#[trigger] longer[j], 0) by {
                    if j < done.len() {
                        assert(longer[j] == done[j]);
                    }
                }
                assert forall|j: int| 0 <= j < best implies occurrences(longer[best], 0)
                    < occurrences(#[trigger] longer[j], 0) by {
                    assert(longer[j] == done[j]);
                }
                done = longer;
            }
        }
        start = end;
    }
    proof {
        assert(image@.skip(n as int) =~= Seq::empty());
        assert(all =~= done);
    }
    Some(product)
}

/// What is seen through all layers of the picture, the first on top.
pub fn compose(image: &Vec<u32>, size: usize) -> (seen: Vec<u32>)
    requires
        size > 0,
    ensures
        seen@ == composed(
            layers(image@, size as nat),
            size as nat,
            layers(image@, size as nat).len() as int,
        ),
{
    let n = image.len();
    let mut seen: Vec<u32> = vec![TRANSPARENT; size];
    let ghost all = layers(image@, size as nat);
    let ghost mut done: Seq<Seq<u32>> = Seq::empty();
    let mut start: usize = 0;
    proof {
        assert(image@.skip(0) =~= image@);
        assert(seen@ =~= composed(all, size as nat, 0));
    }
    while start < n
        invariant
            size > 0,
            n == image@.len(),
            start <= n,
            all == done + layers(image@.skip(start as int), size as nat),
            seen@ == composed(all, size as nat, done.len() as int),
        decreases n - start,
    {
        let end = if n - start <= size {
            n
        } else {
            start + size
        };
        let layer = slice_subrange(image.as_slice(), start, end);
        let ghost rest = image@.skip(start as int);
        proof {
            lemma_layers_unfold(rest, size as nat);
            assert(rest.take(end - start) =~= layer@);
            assert(rest.skip(end - start) =~= image@.skip(end as int));
            assert(all =~= done.push(layer@) + layers(image@.skip(end as int), size as nat));
            assert(all[done.len() as int] == layer@);
            done = done.push(layer@);
        }
        combine_layers(layer, seen.as_mut_slice());
        start = end;
    }
    proof {
        assert(image@.skip(n as int) =~= Seq::empty());
        assert(all =~= done);
    }
    seen
}

/// The picture as lines of text, `width` pixels to the line.
pub fn render(picture: &Vec<u32>, width: usize) -> (lines: Vec<String>)
    requires
        width > 0,
    ensures
        texts_of(lines@) == rows_text(layers(picture@, width as nat)),
{
    let n = picture.len();
    let mut lines: Vec<String> = Vec::new();
    let ghost all = layers(picture@, width as nat);
    let ghost mut done: Seq<Seq<u32>> = Seq::empty();
    let mut start: usize = 0;
    proof {
        assert(picture@.skip(0) =~= picture@);
    }
    while start < n
        invariant
            width > 0,
            n == picture@.len(),
            start <= n,
            all == done + layers(picture@.skip(start as int), width as nat),
            lines@.len() == done.len(),
            forall|k: int| 0 <= k < done.len() ==> (#[trigger] lines@[k])@ == row_text(done[k]),
        decreases n - start,
    {
        let end = if n - start <= width {
            n
        } else {
            start + width
        };
        let ghost rest = picture@.skip(start as int);
        let ghost row = picture@.subrange(start as int, end as int);
        proof {
            lemma_layers_unfold(rest, width as nat);
            assert(rest.take(end - start) =~= row);
            assert(rest.skip(end - start) =~= picture@.skip(end as int));
            assert(all =~= done.push(row) + layers(picture@.skip(end as int), width as nat));
        }
        let mut line: Vec<char> = Vec::new();
        let mut i: usize = start;
        while i < end
            invariant
                start <= i <= end <= n,
                n == picture@.len(),
                row == picture@.subrange(start as int, end as int),
                line@.len() == i - start,
                forall|j: int| 0 <= j < i - start ==> #[trigger] line@[j] == pixel_char(row[j]),
            decreases end - i,
        {
            let c = if picture[i] == 1 {
                '\u{2588}'
            } else {
                ' '
            };
            line.push(c);
            i += 1;
        }
        assert(line@ =~= row_text(row));
        lines.push(string_of(&line));
        proof {
            done = done.push(row);
        }
        start = end;
    }
    proof {
        assert(picture@.skip(n as int) =~= Seq::empty());
        assert(all =~= done);
        assert(texts_of(lines@) =~= rows_text(all));
    }
    lines
}

} // verus!
