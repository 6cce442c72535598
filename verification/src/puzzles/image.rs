use vstd::prelude::*;

verus! {

pub const WIDTH: usize = 25;

pub const HEIGHT: usize = 6;

/// The number of pixels in a layer.
pub const LAYER_SIZE: usize = 150;

/// The byte that writes the digit 0.
pub const ZERO: u8 = 48;

/// How an undecided, a white and a black pixel are drawn.
pub const TRANSPARENT: u8 = 45;

pub const WHITE: u8 = 64;

pub const BLACK: u8 = 32;

/// A layer is `LAYER_SIZE` pixels, row after row.
pub open spec fn is_layer(layer: Seq<u8>) -> bool {
    layer.len() == 150
}

/// Whether each of `layers` is a layer.
pub open spec fn are_layers(layers: Seq<Vec<u8>>) -> bool {
    forall|k: int| 0 <= k < layers.len() ==> is_layer((#[trigger] layers[k])@)
}

/// The number of pixels of value `n` among the first `upto` of `layer`.
pub open spec fn spec_count_ns(layer: Seq<u8>, n: u8, upto: int) -> int
    decreases upto,
{
    if upto <= 0 {
        0
    } else {
        spec_count_ns(layer, n, upto - 1) + if layer[upto - 1] == n {
            1int
        } else {
            0int
        }
    }
}

/// The pixel of layer `k` at place `i`, as the bytes of `input` give it:
/// each byte less the byte of the digit 0.
pub open spec fn spec_pixel(input: Seq<u8>, k: int, i: int) -> int {
    input[k * 150 + i] - 48
}

/// The bytes of `input` can be cut into whole layers of digits.
pub open spec fn parses(input: Seq<u8>) -> bool {
    &&& input.len() % 150 == 0
    &&& forall|j: int| 0 <= j < input.len() ==> #[trigger] input[j] >= 48
}

/// Cuts the bytes of `input` into layers. Returns `None` when they are not
/// a whole number of layers or a byte is below the digit 0.
pub fn parse_input(input: &[u8]) -> (r: Option<Vec<Vec<u8>>>)
    ensures
        match r {
            Some(layers) => {
                &&& parses(input@)
                &&& layers@.len() == input@.len() / 150
                &&& are_layers(layers@)
                &&& forall|k: int, i: int|
                    0 <= k < layers@.len() && 0 <= i < 150 ==> (#[trigger] layers@[k]@[i])
                        == spec_pixel(input@, k, i)
            },
            None => !parses(input@),
        },
{
    if input.len() % LAYER_SIZE != 0 {
        return None;
    }
    let layers: usize = input.len() / LAYER_SIZE;
    let mut result: Vec<Vec<u8>> = Vec::new();
    let mut layer: usize = 0;
    while layer < layers
        invariant
            layer <= layers,
            layers == input@.len() / 150,
            input@.len() % 150 == 0,
            input@.len() <= usize::MAX,
            result@.len() == layer,
            are_layers(result@),
            forall|j: int| 0 <= j < layer * 150 ==> #[trigger] input@[j] >= 48,
            forall|k: int, i: int|
                0 <= k < result@.len() && 0 <= i < 150 ==> (#[trigger] result@[k]@[i])
                    == spec_pixel(input@, k, i),
        decreases layers - layer,
    {
        let mut pixels: Vec<u8> = Vec::new();
        let mut i: usize = 0;
        while i < LAYER_SIZE
            invariant
                i <= 150,
                layer < layers,
                layers == input@.len() / 150,
                input@.len() % 150 == 0,
                input@.len() <= usize::MAX,
                pixels@.len() == i,
                forall|j: int| 0 <= j < layer * 150 + i ==> #[trigger] input@[j] >= 48,
                forall|j: int| 0 <= j < i ==> (#[trigger] pixels@[j]) == spec_pixel(
                    input@,
                    layer as int,
                    j,
                ),
            decreases LAYER_SIZE - i,
        {
            assert(input@.len() == layers * 150);
            assert(layer * 150 + i < input@.len());
            let c: u8 = input[layer * 150 + i];
            if c < ZERO {
                return None;
            }
            pixels.push(c - ZERO);
            i = i + 1;
        }
        let ghost before = result@;
        result.push(pixels);
        proof {
            assert forall|k: int| 0 <= k < result@.len() implies is_layer(
                (#[trigger] result@[k])@,
            ) by {
                if k < before.len() {
                    assert(result@[k] == before[k]);
                }
            }
            assert forall|k: int, i: int|
                0 <= k < result@.len() && 0 <= i < 150 implies (#[trigger] result@[k]@[i])
                == spec_pixel(input@, k, i) by {
                if k < before.len() {
                    assert(result@[k] == before[k]);
                }
            }
        }
        layer = layer + 1;
    }
    Some(result)
}

/// The number of pixels of value `n` in `layer`.
pub fn count_ns(layer: &Vec<u8>, n: u8) -> (count: u64)
    requires
        is_layer(layer@),
    ensures
        count == spec_count_ns(layer@, n, 150),
{
    let mut count: u64 = 0;
    let mut i: usize = 0;
    while i < LAYER_SIZE
        invariant
            i <= 150,
            is_layer(layer@),
            count <= i,
            count == spec_count_ns(layer@, n, i as int),
        decreases LAYER_SIZE - i,
    {
        if layer[i] == n {
            count = count + 1;
        }
        i = i + 1;
    }
    count
}

/// Layer `k` has no more zeros than any layer, and fewer than any layer
/// before it.
pub open spec fn fewest_zeros(layers: Seq<Vec<u8>>, k: int) -> bool {
    &&& 0 <= k < layers.len()
    &&& forall|j: int|
        0 <= j < layers.len() ==> spec_count_ns(layers[k]@, 0, 150) <= spec_count_ns(
            (#[trigger] layers[j])@,
            0,
            150,
        )
    &&& forall|j: int|
        0 <= j < k ==> spec_count_ns(layers[k]@, 0, 150) < spec_count_ns(
            (#[trigger] layers[j])@,
            0,
            150,
        )
}

/// The number of ones times the number of twos in the first of the layers
/// with the fewest zeros, or `None` when there is no layer.
pub fn part1(layers: &Vec<Vec<u8>>) -> (r: Option<u64>)
    requires
        are_layers(layers@),
    ensures
        match r {
            Some(check) => exists|k: int|
                #[trigger] fewest_zeros(layers@, k) && check == spec_count_ns(
                    layers@[k]@,
                    1,
                    150,
                ) * spec_count_ns(layers@[k]@, 2, 150),
            None => layers@.len() == 0,
        },
{
    if layers.len() == 0 {
        return None;
    }
    let mut min_ix: usize = 0;
    let mut min: u64 = count_ns(&layers[0], 0);
    let mut i: usize = 1;
    while i < layers.len()
        invariant
            1 <= i <= layers.len(),
            are_layers(layers@),
            min_ix < i,
            min == spec_count_ns(layers@[min_ix as int]@, 0, 150),
            forall|j: int|
                0 <= j < i ==> min <= spec_count_ns((#[trigger] layers@[j])@, 0, 150),
            forall|j: int|
                0 <= j < min_ix ==> min < spec_count_ns((#[trigger] layers@[j])@, 0, 150),
        decreases layers.len() - i,
    {
        let zeros: u64 = count_ns(&layers[i], 0);
        if zeros < min {
            min = zeros;
            min_ix = i;
        }
        i = i + 1;
    }
    let ones: u64 = count_ns(&layers[min_ix], 1);
    let twos: u64 = count_ns(&layers[min_ix], 2);
    proof {
        lemma_count_bound(layers@[min_ix as int]@, 1, 150);
        lemma_count_bound(layers@[min_ix as int]@, 2, 150);
        assert(ones * twos <= 150 * 150) by (nonlinear_arith)
            requires
                ones <= 150,
                twos <= 150,
        ;
        assert(fewest_zeros(layers@, min_ix as int));
    }
    Some(ones * twos)
}

/// No more pixels are counted than were looked at.
proof fn lemma_count_bound(layer: Seq<u8>, n: u8, upto: int)
    requires
        0 <= upto,
    ensures
        0 <= spec_count_ns(layer, n, upto) <= upto,
    decreases upto,
{
    if upto > 0 {
        lemma_count_bound(layer, n, upto - 1);
    }
}

/// How the pixel of value `pixel` is drawn, if there is such a pixel:
/// 0 is black, 1 is white and 2 lets the layer below show.
pub open spec fn spec_paint(pixel: u8) -> Option<u8> {
    if pixel == 2 {
        Some(TRANSPARENT)
    } else if pixel == 1 {
        Some(WHITE)
    } else if pixel == 0 {
        Some(BLACK)
    } else {
        None
    }
}

/// What shows at place `i` when the first `upto` of `layers` lie on top of
/// each other, the first on top: the pixel of the first layer that is not
/// transparent there. There is nothing to show when that pixel has no
/// colour, or a pixel above it neither.
pub open spec fn spec_combined(layers: Seq<Vec<u8>>, upto: int, i: int) -> Option<u8>
    decreases upto,
{
    if upto <= 0 {
        Some(TRANSPARENT)
    } else {
        match spec_combined(layers, upto - 1, i) {
            None => None,
            Some(above) => if above == TRANSPARENT {
                spec_paint(layers[upto - 1]@[i])
            } else {
                Some(above)
            },
        }
    }
}

/// Where there is nothing to show under some layers, there is nothing to
/// show under more.
proof fn lemma_nothing_stays_nothing(layers: Seq<Vec<u8>>, upto: int, more: int, i: int)
    requires
        upto <= more,
        spec_combined(layers, upto, i).is_none(),
    ensures
        spec_combined(layers, more, i).is_none(),
    decreases more - upto,
{
    if upto < more {
        lemma_nothing_stays_nothing(layers, upto, more - 1, i);
    }
}

/// Lays `layers` on top of each other, the first on top, and returns the
/// picture that shows, row after row. Returns `None` when at some place
/// there is nothing to show.
pub fn part2(layers: &Vec<Vec<u8>>) -> (r: Option<Vec<u8>>)
    requires
        are_layers(layers@),
    ensures
        match r {
            Some(picture) => {
                &&& picture@.len() == 150
                &&& forall|i: int|
                    0 <= i < 150 ==> spec_combined(layers@, layers@.len() as int, i) == Some(
                        #[trigger] picture@[i],
                    )
            },
            None => exists|i: int|
                0 <= i < 150 && (#[trigger] spec_combined(
                    layers@,
                    layers@.len() as int,
                    i,
                )).is_none(),
        },
{
    let mut combined: Vec<u8> = vec![TRANSPARENT; 150];
    let mut k: usize = 0;
    while k < layers.len()
        invariant
            k <= layers.len(),
            are_layers(layers@),
            combined@.len() == 150,
            forall|i: int|
                0 <= i < 150 ==> spec_combined(layers@, k as int, i) == Some(
                    #[trigger] combined@[i],
                ),
        decreases layers.len() - k,
    {
        let mut i: usize = 0;
        while i < LAYER_SIZE
            invariant
                i <= 150,
                k < layers.len(),
                are_layers(layers@),
                combined@.len() == 150,
                forall|j: int|
                    0 <= j < i ==> spec_combined(layers@, k + 1, j) == Some(
                        #[trigger] combined@[j],
                    ),
                forall|j: int|
                    i <= j < 150 ==> spec_combined(layers@, k as int, j) == Some(
                        #[trigger] combined@[j],
                    ),
            decreases LAYER_SIZE - i,
        {
            if combined[i] == TRANSPARENT {
                let pixel: u8 = layers[k][i];
                let shown: u8 = if pixel == 2 {
                    TRANSPARENT
                } else if pixel == 1 {
                    WHITE
                } else if pixel == 0 {
                    BLACK
                } else {
                    proof {
                        assert(spec_combined(layers@, k + 1, i as int).is_none());
                        lemma_nothing_stays_nothing(
                            layers@,
                            k + 1,
                            layers@.len() as int,
                            i as int,
                        );
                    }
                    return None;
                };
                combined.set(i, shown);
            }
            i = i + 1;
        }
        k = k + 1;
    }
    Some(combined)
}

} // verus!
