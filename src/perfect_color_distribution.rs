//! Rank-based ("perfect") colour distribution.
//!
//! Pixels are ordered by value; the darkest colour takes the pixels at or
//! below a threshold together with the remainder of an even division, and
//! every palette colour then takes the same number of pixels, in increasing
//! order. Colour usage is thus independent of the shape of the value
//! histogram.
use vstd::prelude::*;
use vstd::relations::{sorted_by, total_ordering};
use vstd::seq_lib::lemma_sorted_unique;
use vstd::set_lib::{lemma_int_range, lemma_map_size, set_int_range};

verus! {

/// Values at or below this threshold count as zero or noise.
pub const COLORING_THRESHOLD: u32 = 3;

/// Threshold of the three spectral channels of the Euler fractal.
pub const EULER_THRESHOLD: u32 = 1;

/// A sort key: primary value, secondary value, pixel index.
pub type SortKey = (u64, u64, usize);

/// Lexicographic order of sort keys, as `Ord` orders tuples of integers.
pub open spec fn key_leq(a: SortKey, b: SortKey) -> bool {
    a.0 < b.0 || (a.0 == b.0 && (a.1 < b.1 || (a.1 == b.1 && a.2 <= b.2)))
}

pub open spec fn key_order() -> spec_fn(SortKey, SortKey) -> bool {
    |a: SortKey, b: SortKey| key_leq(a, b)
}

/// Sort keys in increasing order.
pub open spec fn sorted_keys(keys: Seq<SortKey>) -> Seq<SortKey> {
    keys.sort_by(key_order())
}

proof fn lemma_key_order_total()
    ensures
        total_ordering(key_order()),
{
}

/// Relies on `slice::sort`: it permutes the elements into increasing order
/// of `Ord`, which on tuples of integers is the lexicographic order.
#[verifier::external_body]
fn sort_keys(v: &mut Vec<SortKey>)
    ensures
        final(v)@.to_multiset() == old(v)@.to_multiset(),
        sorted_by(final(v)@, key_order()),
{
    v.sort();
}

/// Number of pixels for each palette colour: `count / palette_size`.
pub open spec fn single_color_use(count: int, palette_size: int) -> int {
    count / palette_size
}

/// Pixels left over by the even division: `count % palette_size`.
pub open spec fn color_remainder(count: int, palette_size: int) -> int {
    count - palette_size * single_color_use(count, palette_size)
}

/// Colour index of the pixel of rank `r` among `zero + count` ranked
/// pixels, the `zero` lowest of which are zero or noise, for a palette of
/// `palette_size` colours.
pub open spec fn band(r: int, zero: int, count: int, palette_size: int) -> int {
    let dark = zero + color_remainder(count, palette_size);
    if r < dark {
        0
    } else {
        (r - dark) / single_color_use(count, palette_size)
    }
}

/// Rank of pixel `i` among `keys`, once sorted: 0 for the lowest key.
pub open spec fn rank_of(keys: Seq<SortKey>, i: int) -> int {
    choose|r: int| 0 <= r < keys.len() && sorted_keys(keys)[r].2 == i
}

/// Colour index of pixel `i` when the pixels of `keys` are coloured by
/// rank, the `zero` lowest of them being zero or noise.
pub open spec fn rank_color(keys: Seq<SortKey>, zero: int, palette_size: int, i: int) -> int {
    band(rank_of(keys, i), zero, keys.len() - zero, palette_size)
}

/// Whether the pixel indices of `keys` are distinct and below `n`.
pub open spec fn keys_index(keys: Seq<SortKey>, n: int) -> bool {
    &&& forall|i: int| 0 <= i < keys.len() ==> #[trigger] keys[i].2 < n
    &&& forall|i: int, j: int|
        0 <= i < keys.len() && 0 <= j < keys.len() && i != j ==> #[trigger] keys[i].2
            != #[trigger] keys[j].2
}

proof fn lemma_band_bound(r: int, zero: int, count: int, palette_size: int)
    requires
        0 <= r < zero + count,
        0 <= zero,
        0 <= count,
        palette_size > 0,
    ensures
        0 <= band(r, zero, count, palette_size) < palette_size,
{
    let single = single_color_use(count, palette_size);
    let dark = zero + color_remainder(count, palette_size);
    assert(count == palette_size * single + count % palette_size) by (nonlinear_arith)
        requires palette_size > 0, single == count / palette_size;
    assert(0 <= count % palette_size < palette_size) by (nonlinear_arith)
        requires palette_size > 0;
    if r >= dark {
        assert(single > 0) by (nonlinear_arith)
            requires r >= dark, r < zero + count, dark == zero + count - palette_size * single, palette_size > 0;
        assert((r - dark) / single < palette_size) by (nonlinear_arith)
            requires 0 <= r - dark < palette_size * single, single > 0;
        assert(0 <= (r - dark) / single) by (nonlinear_arith)
            requires 0 <= r - dark, single > 0;
    }
}

/// The sorted keys hold the same distinct pixel indices as the keys.
proof fn lemma_sorted_indices(keys: Seq<SortKey>, s: Seq<SortKey>, n: int)
    requires
        keys_index(keys, n),
        s.to_multiset() == keys.to_multiset(),
    ensures
        s.len() == keys.len(),
        keys_index(s, n),
        forall|k: int| 0 <= k < s.len() ==> keys.contains(#[trigger] s[k]),
{
    broadcast use vstd::seq_lib::group_to_multiset_ensures;

    assert(keys.no_duplicates()) by {
        assert forall|i: int, j: int|
            0 <= i < keys.len() && 0 <= j < keys.len() && i != j implies keys[i] != keys[j] by {
            assert(keys[i].2 != keys[j].2);
        }
    }
    keys.lemma_multiset_has_no_duplicates();
    s.lemma_multiset_has_no_duplicates_conv();
    assert(s.len() == keys.len()) by {
        assert(s.len() == s.to_multiset().len());
        assert(keys.len() == keys.to_multiset().len());
    }
    assert forall|k: int| 0 <= k < s.len() implies keys.contains(#[trigger] s[k]) by {
        assert(s.to_multiset().count(s[k]) > 0);
    }
    assert forall|a: int, b: int|
        0 <= a < s.len() && 0 <= b < s.len() && a != b implies #[trigger] s[a].2
        != #[trigger] s[b].2 by {
        assert(keys.contains(s[a]));
        assert(keys.contains(s[b]));
        let ia = choose|i: int| 0 <= i < keys.len() && keys[i] == s[a];
        let ib = choose|i: int| 0 <= i < keys.len() && keys[i] == s[b];
        if s[a].2 == s[b].2 {
            assert(ia == ib);
        }
    }
    assert forall|k: int| 0 <= k < s.len() implies #[trigger] s[k].2 < n by {
        assert(keys.contains(s[k]));
    }
}

/// Gives the pixel of each rank among `keys` (ordered by `key_leq`) the
/// colour of that rank, `band(rank, zero, keys.len() - zero, palette_size)`,
/// and leaves the other pixels as they were.
pub fn assign_bands(colors: &mut Vec<usize>, keys: Vec<SortKey>, zero: usize, palette_size: usize)
    requires
        keys_index(keys@, old(colors)@.len() as int),
        zero <= keys@.len(),
        palette_size > 0,
    ensures
        final(colors)@.len() == old(colors)@.len(),
        forall|r: int|
            0 <= r < keys@.len() ==> final(colors)@[#[trigger] sorted_keys(keys@)[r].2 as int]
                == band(r, zero as int, keys@.len() - zero, palette_size as int),
        forall|j: int|
            0 <= j < keys@.len() ==> final(colors)@[#[trigger] keys@[j].2 as int] == rank_color(
                keys@,
                zero as int,
                palette_size as int,
                keys@[j].2 as int,
            ),
        forall|i: int|
            0 <= i < old(colors)@.len() && old(colors)@[i] < palette_size ==> final(colors)@[i]
                < palette_size,
        forall|i: int|
            0 <= i < old(colors)@.len() && (forall|j: int| 0 <= j < keys@.len() ==> keys@[j].2 != i)
                ==> final(colors)@[i] == old(colors)@[i],
{
    let ghost n = colors@.len() as int;
    let ghost initial = colors@;
    let mut s = keys;
    sort_keys(&mut s);
    proof {
        lemma_key_order_total();
        keys@.lemma_sort_by_ensures(key_order());
        lemma_sorted_unique(s@, sorted_keys(keys@), key_order());
        lemma_sorted_indices(keys@, s@, n);
    }
    let total = s.len();
    let count = total - zero;
    let single = count / palette_size;
    assert(count % palette_size == count - palette_size * single && count % palette_size <= count)
        by (nonlinear_arith)
        requires palette_size > 0, single == count / palette_size, count >= 0;
    let dark = zero + count % palette_size;
    let mut r: usize = 0;
    while r < total
        invariant
            s@ == sorted_keys(keys@),
            forall|k: int| 0 <= k < s@.len() ==> keys@.contains(#[trigger] s@[k]),
            keys_index(s@, n),
            total == s@.len(),
            zero <= total,
            count == total - zero,
            palette_size > 0,
            single == single_color_use(count as int, palette_size as int),
            dark == zero + color_remainder(count as int, palette_size as int),
            colors@.len() == n,
            initial.len() == n,
            0 <= r <= total,
            forall|k: int|
                0 <= k < r ==> colors@[#[trigger] s@[k].2 as int] == band(
                    k,
                    zero as int,
                    count as int,
                    palette_size as int,
                ),
            forall|i: int|
                0 <= i < n && (forall|k: int| 0 <= k < r ==> #[trigger] s@[k].2 != i) ==> colors@[i]
                    == initial[i],
            forall|i: int| 0 <= i < n && initial[i] < palette_size ==> colors@[i] < palette_size,
        decreases total - r,
    {
        proof {
            lemma_band_bound(r as int, zero as int, count as int, palette_size as int);
        }
        let c = if r < dark {
            0
        } else {
            (r - dark) / single
        };
        let idx = s[r].2;
        colors.set(idx, c);
        r += 1;
    }
    proof {
        broadcast use vstd::seq_lib::group_to_multiset_ensures;

        assert forall|j: int| 0 <= j < keys@.len() implies colors@[#[trigger] keys@[j].2 as int]
            == rank_color(keys@, zero as int, palette_size as int, keys@[j].2 as int) by {
            assert(keys@.to_multiset().count(keys@[j]) > 0);
            assert(s@.contains(keys@[j]));
            let r = choose|r: int| 0 <= r < s@.len() && s@[r] == keys@[j];
            let i = keys@[j].2 as int;
            assert(0 <= r < keys@.len() && sorted_keys(keys@)[r].2 == i);
            let q = rank_of(keys@, i);
            assert(s@[q].2 == s@[r].2);
        }
        assert forall|i: int|
            0 <= i < n && (forall|j: int| 0 <= j < keys@.len() ==> keys@[j].2 != i) implies colors@[i]
            == initial[i] by {
            assert forall|k: int| 0 <= k < total implies #[trigger] s@[k].2 != i by {
                assert(keys@.contains(s@[k]));
            }
        }
    }
}

/// Keys of the pixels `0..n` that `sel` selects, in pixel order: `key(i)`
/// followed by the pixel index `i`.
pub open spec fn keys_where(n: nat, sel: spec_fn(int) -> bool, key: spec_fn(int) -> (u64, u64)) -> Seq<
    SortKey,
>
    decreases n,
{
    if n == 0 {
        Seq::empty()
    } else {
        let prev = keys_where((n - 1) as nat, sel, key);
        if sel(n - 1) {
            prev.push((key(n - 1).0, key(n - 1).1, (n - 1) as usize))
        } else {
            prev
        }
    }
}

proof fn lemma_keys_where(n: nat, sel: spec_fn(int) -> bool, key: spec_fn(int) -> (u64, u64))
    requires
        n <= usize::MAX,
    ensures
        keys_index(keys_where(n, sel, key), n as int),
        keys_where(n, sel, key).len() <= n,
        forall|j: int|
            0 <= j < keys_where(n, sel, key).len() ==> sel(#[trigger] keys_where(n, sel, key)[j].2 as int),
        forall|i: int|
            0 <= i < n && #[trigger] sel(i) ==> exists|j: int|
                0 <= j < keys_where(n, sel, key).len() && #[trigger] keys_where(n, sel, key)[j].2
                    == i,
    decreases n,
{
    if n > 0 {
        lemma_keys_where((n - 1) as nat, sel, key);
        let prev = keys_where((n - 1) as nat, sel, key);
        let cur = keys_where(n, sel, key);
        if sel(n - 1) {
            assert(cur[prev.len() as int].2 == n - 1);
            assert forall|i: int| 0 <= i < n && #[trigger] sel(i) implies exists|j: int|
                0 <= j < cur.len() && #[trigger] cur[j].2 == i by {
                if i < n - 1 {
                    let j = choose|j: int| 0 <= j < prev.len() && #[trigger] prev[j].2 == i;
                    assert(cur[j].2 == i);
                } else {
                    assert(cur[prev.len() as int].2 == i);
                }
            }
        }
    }
}

/// Number of `values` at or below `threshold`.
pub open spec fn count_at_most(values: Seq<u32>, threshold: u32) -> nat
    decreases values.len(),
{
    if values.len() == 0 {
        0
    } else {
        count_at_most(values.drop_last(), threshold) + if values.last() <= threshold {
            1nat
        } else {
            0nat
        }
    }
}

proof fn lemma_count_at_most_len(values: Seq<u32>, threshold: u32)
    ensures
        count_at_most(values, threshold) <= values.len(),
    decreases values.len(),
{
    if values.len() > 0 {
        lemma_count_at_most_len(values.drop_last(), threshold);
    }
}

/// Sort keys of a field of `values`: each value, then the pixel index.
pub open spec fn value_keys(values: Seq<u32>) -> Seq<SortKey> {
    keys_where(values.len(), every_pixel(), value_key(values))
}

pub open spec fn every_pixel() -> spec_fn(int) -> bool {
    |i: int| true
}

pub open spec fn value_key(values: Seq<u32>) -> spec_fn(int) -> (u64, u64) {
    |i: int| (values[i] as u64, 0u64)
}

/// Colour index of each pixel of `values` under the rank-based distribution
/// with the given noise threshold.
pub open spec fn threshold_color(values: Seq<u32>, threshold: u32, palette_size: int, i: int) -> int {
    rank_color(value_keys(values), count_at_most(values, threshold) as int, palette_size, i)
}

fn zeros(n: usize) -> (r: Vec<usize>)
    ensures
        r@ == Seq::new(n as nat, |i: int| 0usize),
{
    let mut r: Vec<usize> = Vec::new();
    while r.len() < n
        invariant
            r@ == Seq::new(r@.len(), |i: int| 0usize),
            r@.len() <= n,
        decreases n - r@.len(),
    {
        r.push(0);
    }
    r
}

/// Rank-based colour indices of `values`: values at or below `threshold`,
/// and the lowest `remainder` of the others, take colour 0; the rest take the
/// palette's colours in equal bands, in increasing order of value.
pub fn color_values_with_threshold(values: &Vec<u32>, threshold: u32, palette_size: usize) -> (colors:
    Vec<usize>)
    requires
        palette_size > 0,
    ensures
        colors@.len() == values@.len(),
        forall|i: int|
            0 <= i < values@.len() ==> colors@[i] == threshold_color(
                values@,
                threshold,
                palette_size as int,
                i,
            ),
        forall|i: int| 0 <= i < values@.len() ==> colors@[i] < palette_size,
{
    let n = values.len();
    let ghost sel = every_pixel();
    let ghost key = value_key(values@);
    let mut keys: Vec<SortKey> = Vec::new();
    let mut zero: usize = 0;
    let mut i: usize = 0;
    while i < n
        invariant
            n == values@.len(),
            0 <= i <= n,
            keys@ == keys_where(i as nat, sel, key),
            sel == every_pixel(),
            key == value_key(values@),
            zero == count_at_most(values@.subrange(0, i as int), threshold),
        decreases n - i,
    {
        assert(values@.subrange(0, i + 1).drop_last() == values@.subrange(0, i as int));
        proof {
            lemma_count_at_most_len(values@.subrange(0, i as int), threshold);
        }
        if values[i] <= threshold {
            zero += 1;
        }
        keys.push((values[i] as u64, 0, i));
        assert(sel(i as int) && key(i as int) == (values@[i as int] as u64, 0u64));
        assert(keys_where((i + 1) as nat, sel, key) == keys_where(i as nat, sel, key).push(
            (key(i as int).0, key(i as int).1, i),
        ));
        i += 1;
    }
    proof {
        assert(values@.subrange(0, n as int) == values@);
        lemma_count_at_most_len(values@, threshold);
        lemma_keys_where(n as nat, sel, key);
        assert(keys@.len() == n) by {
            lemma_keys_where_all(n as nat, key);
        }
    }
    let mut colors = zeros(n);
    assign_bands(&mut colors, keys, zero, palette_size);
    proof {
        assert forall|i: int| 0 <= i < values@.len() implies colors@[i] == threshold_color(
            values@,
            threshold,
            palette_size as int,
            i,
        ) by {
            assert(sel(i));
            let j = choose|j: int| 0 <= j < keys@.len() && #[trigger] keys@[j].2 == i;
        }
    }
    colors
}

proof fn lemma_keys_where_all(n: nat, key: spec_fn(int) -> (u64, u64))
    ensures
        keys_where(n, every_pixel(), key).len() == n,
    decreases n,
{
    if n > 0 {
        lemma_keys_where_all((n - 1) as nat, key);
    }
}

/// Perfect colour distribution of a Nebula-like field: colour index of each
/// pixel, noise being the values at or below `COLORING_THRESHOLD`.
pub fn perfectly_color_values(values: &Vec<u32>, palette_size: usize) -> (colors: Vec<usize>)
    requires
        palette_size > 0,
    ensures
        colors@.len() == values@.len(),
        forall|i: int|
            0 <= i < values@.len() ==> colors@[i] == threshold_color(
                values@,
                COLORING_THRESHOLD,
                palette_size as int,
                i,
            ),
        forall|i: int| 0 <= i < values@.len() ==> colors@[i] < palette_size,
{
    color_values_with_threshold(values, COLORING_THRESHOLD, palette_size)
}

/// Perfect colour distribution of the three spectral channels of the Euler
/// fractal, each distributed on its own with `EULER_THRESHOLD` as noise.
pub fn perfectly_color_values_euler(
    red: &Vec<u32>,
    green: &Vec<u32>,
    blue: &Vec<u32>,
    palette_size: usize,
) -> (colors: (Vec<usize>, Vec<usize>, Vec<usize>))
    requires
        palette_size > 0,
    ensures
        colors.0@.len() == red@.len(),
        colors.1@.len() == green@.len(),
        colors.2@.len() == blue@.len(),
        forall|i: int|
            0 <= i < red@.len() ==> colors.0@[i] == threshold_color(
                red@,
                EULER_THRESHOLD,
                palette_size as int,
                i,
            ),
        forall|i: int|
            0 <= i < green@.len() ==> colors.1@[i] == threshold_color(
                green@,
                EULER_THRESHOLD,
                palette_size as int,
                i,
            ),
        forall|i: int|
            0 <= i < blue@.len() ==> colors.2@[i] == threshold_color(
                blue@,
                EULER_THRESHOLD,
                palette_size as int,
                i,
            ),
{
    let r = color_values_with_threshold(red, EULER_THRESHOLD, palette_size);
    let g = color_values_with_threshold(green, EULER_THRESHOLD, palette_size);
    let b = color_values_with_threshold(blue, EULER_THRESHOLD, palette_size);
    (r, g, b)
}

/// Index of the `k`-th cell, row by row, of the 3x3 block centred on
/// `(x, y)`; `k == 4` is the centre.
pub open spec fn neighbor_index(width: int, x: int, y: int, k: int) -> int {
    (y + k / 3 - 1) * width + (x + k % 3 - 1)
}

/// Sum of the colours of the neighbours among the first `k` cells of the
/// block centred on `(x, y)`.
pub open spec fn neighbor_color_sum(colors: Seq<usize>, width: int, x: int, y: int, k: nat) -> int
    decreases k,
{
    if k == 0 {
        0
    } else {
        neighbor_color_sum(colors, width, x, y, (k - 1) as nat) + if k - 1 == 4 {
            0
        } else {
            colors[neighbor_index(width, x, y, k - 1)] as int
        }
    }
}

/// Whether each neighbour among the first `k` cells of the block centred on
/// `(x, y)` has a non-zero value within 2 of the centre's value.
pub open spec fn smooth_neighbors(values: Seq<u32>, width: int, x: int, y: int, k: nat) -> bool
    decreases k,
{
    if k == 0 {
        true
    } else {
        smooth_neighbors(values, width, x, y, (k - 1) as nat) && (k - 1 == 4 || {
            let v = values[y * width + x] as int;
            let nv = values[neighbor_index(width, x, y, k - 1)] as int;
            nv != 0 && -2 <= v - nv <= 2
        })
    }
}

proof fn lemma_smooth_prefix(values: Seq<u32>, width: int, x: int, y: int, k: nat, m: nat)
    requires
        k <= m,
        smooth_neighbors(values, width, x, y, m),
    ensures
        smooth_neighbors(values, width, x, y, k),
    decreases m,
{
    if k < m {
        lemma_smooth_prefix(values, width, x, y, k, (m - 1) as nat);
    }
}

/// The colour that replaces the colour of the non-zero pixel `(x, y)`: the
/// average (rounded down) of its 8 neighbours' colours, where the pixel is
/// inside the grid's border, its neighbours are smooth, and it is darker than
/// that average by more than 5.
pub open spec fn black_dot_spec(
    values: Seq<u32>,
    colors: Seq<usize>,
    width: int,
    height: int,
    x: int,
    y: int,
) -> Option<int> {
    if 1 <= x && x + 1 < width && 1 <= y && y + 1 < height && values[y * width + x] != 0
        && smooth_neighbors(values, width, x, y, 9) {
        let average = neighbor_color_sum(colors, width, x, y, 9) / 8;
        if colors[y * width + x] + 5 < average {
            Some(average)
        } else {
            None
        }
    } else {
        None
    }
}

proof fn lemma_index_bound(width: int, height: int, x: int, y: int)
    requires
        0 <= x < width,
        0 <= y < height,
    ensures
        0 <= y * width + x < width * height,
{
    assert(0 <= y * width + x < width * height) by (nonlinear_arith)
        requires 0 <= x < width, 0 <= y < height;
}

/// The average colour of the neighbours of the non-zero pixel `(x, y)` when
/// it is a black dot: a pixel darker than its smooth neighbourhood.
pub fn ac_if_black_dot(
    values: &Vec<u32>,
    colors: &Vec<usize>,
    width: usize,
    height: usize,
    x: usize,
    y: usize,
) -> (r: Option<usize>)
    requires
        values@.len() == width * height,
        colors@.len() == width * height,
        x < width,
        y < height,
    ensures
        r matches Some(a) ==> black_dot_spec(values@, colors@, width as int, height as int, x as int, y as int) == Some(a as int),
        r is None ==> black_dot_spec(values@, colors@, width as int, height as int, x as int, y as int) is None,
{
    if x == 0 || y == 0 || x + 1 >= width || y + 1 >= height {
        return None;
    }
    let n = values.len();
    proof {
        lemma_index_bound(width as int, height as int, x as int, y as int);
    }
    let i = y * width + x;
    let pv = values[i];
    if pv == 0 {
        return None;
    }
    let mut sum: u128 = 0;
    let mut k: usize = 0;
    while k < 9
        invariant
            values@.len() == width * height,
            colors@.len() == width * height,
            1 <= x < width - 1,
            1 <= y < height - 1,
            i == y * width + x,
            n == width * height,
            i < n,
            pv == values@[i as int],
            k <= 9,
            sum == neighbor_color_sum(colors@, width as int, x as int, y as int, k as nat),
            k <= 4 ==> sum <= k * 0x1_0000_0000_0000_0000,
            k > 4 ==> sum <= (k - 1) * 0x1_0000_0000_0000_0000,
            k <= 4 ==> sum <= k * (usize::MAX as int),
            k > 4 ==> sum <= (k - 1) * (usize::MAX as int),
            smooth_neighbors(values@, width as int, x as int, y as int, k as nat),
        decreases 9 - k,
    {
        if k != 4 {
            let ny = y + k / 3 - 1;
            let nx = x + k % 3 - 1;
            proof {
                lemma_index_bound(width as int, height as int, nx as int, ny as int);
            }
            let ni = ny * width + nx;
            assert(ni == neighbor_index(width as int, x as int, y as int, k as int));
            let nv = values[ni];
            let delta = if pv > nv {
                pv - nv
            } else {
                nv - pv
            };
            if nv == 0 || delta > 2 {
                proof {
                    if smooth_neighbors(values@, width as int, x as int, y as int, 9) {
                        lemma_smooth_prefix(values@, width as int, x as int, y as int, (k + 1) as nat, 9);
                    }
                }
                return None;
            }
            assert(colors@[ni as int] < 0x1_0000_0000_0000_0000);
            let c = colors[ni];
            proof {
                let m = if k < 4 { k as int } else { k - 1 };
                assert(sum + c <= (m + 1) * (usize::MAX as int)) by (nonlinear_arith)
                    requires sum <= m * (usize::MAX as int), c <= usize::MAX;
            }
            sum = sum + c as u128;
        }
        k += 1;
    }
    let average = sum / 8;
    assert(average <= usize::MAX) by (nonlinear_arith)
        requires sum <= 8 * (usize::MAX as int), average == sum / 8;
    if (colors[i] as u128) + 5 < average {
        Some(average as usize)
    } else {
        None
    }
}

/// The colour of pixel `(x, y)` after the black-dot pass over `colors`.
pub open spec fn fixed_color(
    values: Seq<u32>,
    colors: Seq<usize>,
    width: int,
    height: int,
    x: int,
    y: int,
) -> int {
    match black_dot_spec(values, colors, width, height, x, y) {
        Some(a) => a,
        None => colors[y * width + x] as int,
    }
}

proof fn lemma_index_before(width: int, x: int, y: int, x2: int, y2: int)
    requires
        0 <= x < width,
        0 <= x2 < width,
        0 <= y,
        0 <= y2,
        y2 < y || (y2 == y && x2 < x),
    ensures
        0 <= y2 * width + x2 < y * width + x,
{
    assert(0 <= y2 * width + x2 < y * width + x) by (nonlinear_arith)
        requires 0 <= x < width, 0 <= x2 < width, 0 <= y, 0 <= y2, y2 < y || (y2 == y && x2 < x);
}

/// Replaces the colour of every black dot by the average colour of its
/// neighbours, each pixel judged on the colours before the pass.
pub fn fix_black_dots(values: &Vec<u32>, colors: &Vec<usize>, width: usize, height: usize) -> (r: Vec<
    usize,
>)
    requires
        values@.len() == width * height,
        colors@.len() == width * height,
    ensures
        r@.len() == width * height,
        forall|x: int, y: int|
            0 <= x < width && 0 <= y < height ==> r@[y * width + x] == fixed_color(
                values@,
                colors@,
                width as int,
                height as int,
                x,
                y,
            ),
{
    let n = values.len();
    let mut r: Vec<usize> = Vec::new();
    let mut y: usize = 0;
    while y < height
        invariant
            n == width * height,
            values@.len() == width * height,
            colors@.len() == width * height,
            y <= height,
            r@.len() == y * width,
            forall|x2: int, y2: int|
                0 <= x2 < width && 0 <= y2 < y ==> #[trigger] r@[y2 * width + x2] == fixed_color(
                    values@,
                    colors@,
                    width as int,
                    height as int,
                    x2,
                    y2,
                ),
        decreases height - y,
    {
        let mut x: usize = 0;
        while x < width
            invariant
                n == width * height,
                values@.len() == width * height,
                colors@.len() == width * height,
                y < height,
                x <= width,
                r@.len() == y * width + x,
                forall|x2: int, y2: int|
                    0 <= x2 < width && 0 <= y2 && (y2 < y || (y2 == y && x2 < x)) ==> #[trigger] r@[y2
                        * width + x2] == fixed_color(
                        values@,
                        colors@,
                        width as int,
                        height as int,
                        x2,
                        y2,
                    ),
            decreases width - x,
        {
            proof {
                lemma_index_bound(width as int, height as int, x as int, y as int);
            }
            let i = y * width + x;
            let c = match ac_if_black_dot(values, colors, width, height, x, y) {
                Some(a) => a,
                None => colors[i],
            };
            let ghost before = r@;
            r.push(c);
            proof {
                assert forall|x2: int, y2: int|
                    0 <= x2 < width && 0 <= y2 && (y2 < y || (y2 == y && x2 < x + 1)) implies #[trigger] r@[y2
                    * width + x2] == fixed_color(
                    values@,
                    colors@,
                    width as int,
                    height as int,
                    x2,
                    y2,
                ) by {
                    if y2 < y || x2 < x {
                        lemma_index_before(width as int, x as int, y as int, x2, y2);
                        assert(r@[y2 * width + x2] == before[y2 * width + x2]);
                    }
                }
            }
            x += 1;
        }
        assert(r@.len() == (y + 1) * width) by (nonlinear_arith)
            requires r@.len() == y * width + width;
        y += 1;
    }
    assert(r@.len() == width * height) by (nonlinear_arith)
        requires r@.len() == y * width, y == height;
    r
}

pub open spec fn nonzero_pixel(values: Seq<u32>) -> spec_fn(int) -> bool {
    |i: int| values[i] != 0
}

pub open spec fn zero_pixel(values: Seq<u32>) -> spec_fn(int) -> bool {
    |i: int| values[i] == 0
}

pub open spec fn value_quid_key(values: Seq<u32>, quids: Seq<u64>) -> spec_fn(int) -> (u64, u64) {
    |i: int| (values[i] as u64, quids[i])
}

pub open spec fn quad_key(quads: Seq<u64>) -> spec_fn(int) -> (u64, u64) {
    |i: int| (quads[i], 0u64)
}

/// Colours of a Mandelbrot-like field before the black-dot pass: pixels of
/// non-zero value are ranked by value, ties broken by `quid`, on the palette
/// of `palette_size` colours; pixels of value zero (inside the set) are
/// ranked by `quad` on the zero palette of `palette_zero_size` colours.
pub open spec fn mandelbrot_band_colors(
    values: Seq<u32>,
    quads: Seq<u64>,
    quids: Seq<u64>,
    palette_size: int,
    palette_zero_size: int,
) -> Seq<usize> {
    Seq::new(
        values.len(),
        |i: int|
            if values[i] != 0 {
                rank_color(
                    keys_where(values.len(), nonzero_pixel(values), value_quid_key(values, quids)),
                    0,
                    palette_size,
                    i,
                ) as usize
            } else {
                rank_color(
                    keys_where(values.len(), zero_pixel(values), quad_key(quads)),
                    0,
                    palette_zero_size,
                    i,
                ) as usize
            },
    )
}

/// Perfect colour distribution of a Mandelbrot-like field, black dots
/// fixed. A pixel of non-zero value takes a colour of the palette; a pixel
/// of value zero takes a colour of the zero palette.
pub fn perfectly_color_values_mandelbrot(
    values: &Vec<u32>,
    quads: &Vec<u64>,
    quids: &Vec<u64>,
    width: usize,
    height: usize,
    palette_size: usize,
    palette_zero_size: usize,
) -> (colors: Vec<usize>)
    requires
        values@.len() == width * height,
        quads@.len() == values@.len(),
        quids@.len() == values@.len(),
        palette_size > 0,
        palette_zero_size > 0,
    ensures
        colors@.len() == values@.len(),
        forall|x: int, y: int|
            0 <= x < width && 0 <= y < height ==> colors@[y * width + x] == fixed_color(
                values@,
                mandelbrot_band_colors(
                    values@,
                    quads@,
                    quids@,
                    palette_size as int,
                    palette_zero_size as int,
                ),
                width as int,
                height as int,
                x,
                y,
            ),
{
    let n = values.len();
    let ghost nz_sel = nonzero_pixel(values@);
    let ghost z_sel = zero_pixel(values@);
    let ghost nz_key = value_quid_key(values@, quids@);
    let ghost z_key = quad_key(quads@);
    let mut pixels: Vec<SortKey> = Vec::new();
    let mut pixels_zero: Vec<SortKey> = Vec::new();
    let mut i: usize = 0;
    while i < n
        invariant
            n == values@.len(),
            quads@.len() == n,
            quids@.len() == n,
            0 <= i <= n,
            nz_sel == nonzero_pixel(values@),
            z_sel == zero_pixel(values@),
            nz_key == value_quid_key(values@, quids@),
            z_key == quad_key(quads@),
            pixels@ == keys_where(i as nat, nz_sel, nz_key),
            pixels_zero@ == keys_where(i as nat, z_sel, z_key),
        decreases n - i,
    {
        if values[i] == 0 {
            pixels_zero.push((quads[i], 0, i));
        } else {
            pixels.push((values[i] as u64, quids[i], i));
        }
        assert(keys_where((i + 1) as nat, nz_sel, nz_key) == if nz_sel(i as int) {
            keys_where(i as nat, nz_sel, nz_key).push((nz_key(i as int).0, nz_key(i as int).1, i))
        } else {
            keys_where(i as nat, nz_sel, nz_key)
        });
        assert(keys_where((i + 1) as nat, z_sel, z_key) == if z_sel(i as int) {
            keys_where(i as nat, z_sel, z_key).push((z_key(i as int).0, z_key(i as int).1, i))
        } else {
            keys_where(i as nat, z_sel, z_key)
        });
        i += 1;
    }
    proof {
        lemma_keys_where(n as nat, nz_sel, nz_key);
        lemma_keys_where(n as nat, z_sel, z_key);
    }
    let ghost nz_keys = pixels@;
    let ghost z_keys = pixels_zero@;
    let mut colors = zeros(n);
    assign_bands(&mut colors, pixels, 0, palette_size);
    let ghost after_nonzero = colors@;
    assign_bands(&mut colors, pixels_zero, 0, palette_zero_size);
    proof {
        let banded = mandelbrot_band_colors(
            values@,
            quads@,
            quids@,
            palette_size as int,
            palette_zero_size as int,
        );
        assert forall|i: int| 0 <= i < n implies colors@[i] == banded[i] by {
            if values@[i] != 0 {
                assert(nz_sel(i));
                let j = choose|j: int| 0 <= j < nz_keys.len() && #[trigger] nz_keys[j].2 == i;
                assert forall|j: int| 0 <= j < z_keys.len() implies z_keys[j].2 != i by {
                    assert(z_sel(z_keys[j].2 as int));
                }
            } else {
                assert(z_sel(i));
                let j = choose|j: int| 0 <= j < z_keys.len() && #[trigger] z_keys[j].2 == i;
            }
        }
        assert(colors@ == banded);
    }
    fix_black_dots(values, &colors, width, height)
}

proof fn lemma_value_keys_index(values: Seq<u32>, k: nat)
    requires
        k <= values.len(),
        k <= usize::MAX,
    ensures
        keys_where(k, every_pixel(), value_key(values)).len() == k,
        forall|j: int| 0 <= j < k ==> (#[trigger] keys_where(k, every_pixel(), value_key(values))[j]).2 == j,
    decreases k,
{
    if k > 0 {
        lemma_value_keys_index(values, (k - 1) as nat);
        assert(every_pixel()(k - 1));
    }
}

/// Ranks of the pixels of `values` run over `0..n`, each taken once.
proof fn lemma_rank_bijection(values: Seq<u32>)
    requires
        values.len() <= usize::MAX,
    ensures
        forall|i: int|
            0 <= i < values.len() ==> 0 <= #[trigger] rank_of(value_keys(values), i) < values.len() && sorted_keys(
                value_keys(values),
            )[rank_of(value_keys(values), i)].2 == i,
        forall|r: int|
            0 <= r < values.len() ==> (#[trigger] sorted_keys(value_keys(values))[r]).2 < values.len()
                && rank_of(value_keys(values), sorted_keys(value_keys(values))[r].2 as int) == r,
{
    broadcast use vstd::seq_lib::group_to_multiset_ensures;

    let n = values.len() as int;
    let keys = value_keys(values);
    let s = sorted_keys(keys);
    lemma_key_order_total();
    keys.lemma_sort_by_ensures(key_order());
    lemma_value_keys_index(values, values.len());
    lemma_keys_where(values.len(), every_pixel(), value_key(values));
    lemma_sorted_indices(keys, s, n);
    assert forall|i: int| 0 <= i < n implies 0 <= #[trigger] rank_of(keys, i) < n && s[rank_of(keys, i)].2 == i by {
        assert(keys[i].2 == i);
        assert(keys.to_multiset().count(keys[i]) > 0);
        assert(s.contains(keys[i]));
        let r = choose|r: int| 0 <= r < s.len() && s[r] == keys[i];
        assert(0 <= r < keys.len() && sorted_keys(keys)[r].2 == i);
    }
    assert forall|r: int| 0 <= r < n implies (#[trigger] s[r]).2 < n && rank_of(keys, s[r].2 as int) == r by {
        let i = s[r].2 as int;
        assert(0 <= r < keys.len() && sorted_keys(keys)[r].2 == i);
        let q = rank_of(keys, i);
        assert(s[q].2 == s[r].2);
    }
}

/// First and last-plus-one rank that colour `c` takes.
pub open spec fn band_range(zero: int, count: int, palette_size: int, c: int) -> (int, int) {
    let single = single_color_use(count, palette_size);
    let dark = zero + color_remainder(count, palette_size);
    (if c == 0 { 0 } else { dark + c * single }, dark + (c + 1) * single)
}

proof fn lemma_band_range(zero: int, count: int, palette_size: int, c: int, r: int)
    requires
        0 <= zero,
        0 <= count,
        palette_size > 0,
        0 <= c < palette_size,
        0 <= r,
    ensures
        r < zero + count ==> (band(r, zero, count, palette_size) == c <==> band_range(zero, count, palette_size, c).0 <= r
            < band_range(zero, count, palette_size, c).1),
        0 <= band_range(zero, count, palette_size, c).0 <= band_range(zero, count, palette_size, c).1 <= zero + count,
{
    let single = single_color_use(count, palette_size);
    let rem = color_remainder(count, palette_size);
    let dark = zero + rem;
    let lo = band_range(zero, count, palette_size, c).0;
    let hi = band_range(zero, count, palette_size, c).1;
    assert(count == palette_size * single + count % palette_size && 0 <= count % palette_size < palette_size
        && single >= 0) by (nonlinear_arith)
        requires palette_size > 0, single == count / palette_size, count >= 0;
    assert(rem == count - palette_size * single);
    assert(dark + palette_size * single == zero + count);
    let cs = c * single;
    let c1s = (c + 1) * single;
    let ps = palette_size * single;
    assert(0 <= cs <= c1s <= ps && c1s == cs + single) by (nonlinear_arith)
        requires 0 <= c < palette_size, single >= 0, cs == c * single, c1s == (c + 1) * single, ps == palette_size
            * single;
    assert(hi == dark + c1s);
    assert(c == 0 ==> lo == 0);
    assert(c != 0 ==> lo == dark + cs);
    if r < zero + count {
        if r < dark {
            assert(band(r, zero, count, palette_size) == 0);
        } else if single > 0 {
            let b = (r - dark) / single;
            assert(b * single <= r - dark < (b + 1) * single) by (nonlinear_arith)
                requires single > 0, b == (r - dark) / single, r >= dark;
            assert(b == c <==> cs <= r - dark < c1s) by (nonlinear_arith)
                requires single > 0, b * single <= r - dark < (b + 1) * single, cs == c * single, c1s == (c + 1)
                    * single;
            assert(band(r, zero, count, palette_size) == b);
            assert(b >= 0) by (nonlinear_arith)
                requires r - dark >= 0, single > 0, b == (r - dark) / single;
        } else {
            assert(ps == 0) by (nonlinear_arith)
                requires single == 0, ps == palette_size * single;
            assert(dark == zero + count);
        }
    }
}

/// Colouring fairness: each palette colour but the darkest takes exactly
/// `single_color_use` pixels; the darkest takes the rest, which holds every
/// pixel at or below the threshold.
#[verifier::rlimit(50)]
pub proof fn lemma_coloring_fairness(values: Seq<u32>, threshold: u32, palette_size: int, c: int)
    requires
        values.len() <= usize::MAX,
        palette_size > 0,
        0 <= c < palette_size,
    ensures
        ({
            let n = values.len() as int;
            let single = single_color_use(n - count_at_most(values, threshold), palette_size);
            let colored = Set::new(
                |i: int| 0 <= i < n && threshold_color(values, threshold, palette_size, i) == c,
            );
            &&& colored.finite()
            &&& c > 0 ==> colored.len() == single
            &&& c == 0 ==> colored.len() == n - (palette_size - 1) * single
            &&& c == 0 ==> colored.len() >= count_at_most(values, threshold)
        }),
{
    let n = values.len() as int;
    lemma_count_at_most_len(values, threshold);
    let zero = count_at_most(values, threshold) as int;
    let count = n - zero;
    let keys = value_keys(values);
    lemma_value_keys_index(values, values.len());
    let single = single_color_use(count, palette_size);
    let range = band_range(zero, count, palette_size, c);
    let colored = Set::new(|i: int| 0 <= i < n && threshold_color(values, threshold, palette_size, i) == c);
    let ranks = Set::new(|r: int| 0 <= r < n && band(r, zero, count, palette_size) == c);
    lemma_rank_bijection(values);
    lemma_band_range(zero, count, palette_size, c, 0);
    assert(ranks =~= set_int_range(range.0, range.1)) by {
        assert forall|r: int| ranks.contains(r) <==> set_int_range(range.0, range.1).contains(r) by {
            if 0 <= r < n {
                lemma_band_range(zero, count, palette_size, c, r);
            }
        }
    }
    lemma_int_range(range.0, range.1);
    lemma_int_range(0, n);
    assert(colored.subset_of(set_int_range(0, n)));
    vstd::set_lib::lemma_len_subset(colored, set_int_range(0, n));
    let f = |i: int| rank_of(keys, i);
    assert(colored.map(f) =~= ranks) by {
        assert forall|r: int| colored.map(f).contains(r) <==> ranks.contains(r) by {
            if ranks.contains(r) {
                let i = sorted_keys(keys)[r].2 as int;
                assert(colored.contains(i) && f(i) == r);
            }
            if colored.map(f).contains(r) {
                let i = choose|i: int| colored.contains(i) && f(i) == r;
            }
        }
    }
    assert(vstd::relations::injective_on(f, colored)) by {
        assert forall|i: int, j: int| colored.contains(i) && colored.contains(j) && #[trigger] f(i) == #[trigger] f(j)
            implies i == j by {}
    }
    lemma_map_size(colored, ranks, f);
    assert(count == palette_size * single + count % palette_size && 0 <= count % palette_size) by (nonlinear_arith)
        requires palette_size > 0, single == count / palette_size, count >= 0;
    assert((c + 1) * single - c * single == single) by (nonlinear_arith);
    assert(zero + count - palette_size * single + single == n - (palette_size - 1) * single) by (nonlinear_arith)
        requires n == zero + count;
}

/// Ranks of the pixels that `sel` selects run over `0..count`, each taken
/// once.
proof fn lemma_rank_bijection_where(n: nat, sel: spec_fn(int) -> bool, key: spec_fn(int) -> (u64, u64))
    requires
        n <= usize::MAX,
    ensures
        forall|i: int|
            0 <= i < n && #[trigger] sel(i) ==> 0 <= rank_of(keys_where(n, sel, key), i) < keys_where(n, sel, key).len()
                && sorted_keys(keys_where(n, sel, key))[rank_of(keys_where(n, sel, key), i)].2 == i,
        forall|r: int|
            0 <= r < keys_where(n, sel, key).len() ==> (#[trigger] sorted_keys(keys_where(n, sel, key))[r]).2 < n
                && sel(sorted_keys(keys_where(n, sel, key))[r].2 as int) && rank_of(
                keys_where(n, sel, key),
                sorted_keys(keys_where(n, sel, key))[r].2 as int,
            ) == r,
{
    broadcast use vstd::seq_lib::group_to_multiset_ensures;

    let keys = keys_where(n, sel, key);
    let s = sorted_keys(keys);
    lemma_key_order_total();
    keys.lemma_sort_by_ensures(key_order());
    lemma_keys_where(n, sel, key);
    lemma_sorted_indices(keys, s, n as int);
    assert forall|i: int| 0 <= i < n && #[trigger] sel(i) implies 0 <= rank_of(keys, i) < keys.len() && s[rank_of(
        keys,
        i,
    )].2 == i by {
        let j = choose|j: int| 0 <= j < keys.len() && #[trigger] keys[j].2 == i;
        assert(keys.to_multiset().count(keys[j]) > 0);
        assert(s.contains(keys[j]));
        let r = choose|r: int| 0 <= r < s.len() && s[r] == keys[j];
        assert(0 <= r < keys.len() && sorted_keys(keys)[r].2 == i);
    }
    assert forall|r: int| 0 <= r < keys.len() implies (#[trigger] s[r]).2 < n && sel(s[r].2 as int) && rank_of(
        keys,
        s[r].2 as int,
    ) == r by {
        let i = s[r].2 as int;
        assert(keys.contains(s[r]));
        let j = choose|j: int| 0 <= j < keys.len() && keys[j] == s[r];
        assert(sel(keys[j].2 as int));
        assert(0 <= r < keys.len() && sorted_keys(keys)[r].2 == i);
        let q = rank_of(keys, i);
        assert(s[q].2 == s[r].2);
    }
}

/// Pixels that `sel` selects and that take colour `c` when coloured by rank.
pub open spec fn colored_where(
    n: nat,
    sel: spec_fn(int) -> bool,
    key: spec_fn(int) -> (u64, u64),
    palette_size: int,
    c: int,
) -> Set<int> {
    Set::new(|i: int| 0 <= i < n && sel(i) && rank_color(keys_where(n, sel, key), 0, palette_size, i) == c)
}

/// Colouring fairness of a distribution by rank over the pixels `sel`
/// selects: each colour but the darkest takes `count / palette_size` of
/// them, the darkest the rest.
#[verifier::rlimit(50)]
pub proof fn lemma_rank_fairness(
    n: nat,
    sel: spec_fn(int) -> bool,
    key: spec_fn(int) -> (u64, u64),
    palette_size: int,
    c: int,
)
    requires
        n <= usize::MAX,
        palette_size > 0,
        0 <= c < palette_size,
    ensures
        ({
            let count = keys_where(n, sel, key).len() as int;
            let single = single_color_use(count, palette_size);
            let colored = colored_where(n, sel, key, palette_size, c);
            &&& colored.finite()
            &&& c > 0 ==> colored.len() == single
            &&& c == 0 ==> colored.len() == count - (palette_size - 1) * single
        }),
{
    let keys = keys_where(n, sel, key);
    let count = keys.len() as int;
    let single = single_color_use(count, palette_size);
    let range = band_range(0, count, palette_size, c);
    let colored = colored_where(n, sel, key, palette_size, c);
    let ranks = Set::new(|r: int| 0 <= r < count && band(r, 0, count, palette_size) == c);
    lemma_rank_bijection_where(n, sel, key);
    lemma_band_range(0, count, palette_size, c, 0);
    assert(ranks =~= set_int_range(range.0, range.1)) by {
        assert forall|r: int| ranks.contains(r) <==> set_int_range(range.0, range.1).contains(r) by {
            if 0 <= r < count {
                lemma_band_range(0, count, palette_size, c, r);
            }
        }
    }
    lemma_int_range(range.0, range.1);
    lemma_int_range(0, n as int);
    assert(colored.subset_of(set_int_range(0, n as int)));
    vstd::set_lib::lemma_len_subset(colored, set_int_range(0, n as int));
    let f = |i: int| rank_of(keys, i);
    assert(colored.map(f) =~= ranks) by {
        assert forall|r: int| colored.map(f).contains(r) <==> ranks.contains(r) by {
            if ranks.contains(r) {
                let i = sorted_keys(keys)[r].2 as int;
                assert(colored.contains(i) && f(i) == r);
            }
            if colored.map(f).contains(r) {
                let i = choose|i: int| colored.contains(i) && f(i) == r;
                assert(sel(i));
            }
        }
    }
    assert(vstd::relations::injective_on(f, colored)) by {
        assert forall|i: int, j: int| colored.contains(i) && colored.contains(j) && #[trigger] f(i) == #[trigger] f(j)
            implies i == j by {
            assert(sel(i) && sel(j));
        }
    }
    lemma_map_size(colored, ranks, f);
    assert(count == palette_size * single + count % palette_size && 0 <= count % palette_size) by (nonlinear_arith)
        requires palette_size > 0, single == count / palette_size, count >= 0;
    assert((c + 1) * single - c * single == single) by (nonlinear_arith);
    assert(count - palette_size * single + single == count - (palette_size - 1) * single) by (nonlinear_arith);
}

/// Colouring fairness of a Mandelbrot-like field before the black-dot
/// pass: among the pixels of non-zero value each palette colour but the
/// darkest takes `non_zero / palette_size` of them; among the pixels of
/// value zero each zero-palette colour but the darkest takes
/// `zero / palette_zero_size`.
#[verifier::rlimit(50)]
pub proof fn lemma_mandelbrot_fairness(
    values: Seq<u32>,
    quads: Seq<u64>,
    quids: Seq<u64>,
    palette_size: int,
    palette_zero_size: int,
    c: int,
)
    requires
        values.len() <= usize::MAX,
        0 < palette_size <= usize::MAX,
        0 < palette_zero_size <= usize::MAX,
    ensures
        ({
            let n = values.len();
            let nonzero = keys_where(n, nonzero_pixel(values), value_quid_key(values, quids)).len() as int;
            let zero = keys_where(n, zero_pixel(values), quad_key(quads)).len() as int;
            let banded = mandelbrot_band_colors(values, quads, quids, palette_size, palette_zero_size);
            let colored = Set::new(|i: int| 0 <= i < n && values[i] != 0 && banded[i] == c);
            let colored_zero = Set::new(|i: int| 0 <= i < n && values[i] == 0 && banded[i] == c);
            &&& 0 < c < palette_size ==> colored.len() == single_color_use(nonzero, palette_size)
            &&& c == 0 ==> colored.len() == nonzero - (palette_size - 1) * single_color_use(nonzero, palette_size)
            &&& 0 < c < palette_zero_size ==> colored_zero.len() == single_color_use(zero, palette_zero_size)
            &&& c == 0 ==> colored_zero.len() == zero - (palette_zero_size - 1) * single_color_use(
                zero,
                palette_zero_size,
            )
        }),
{
    let n = values.len();
    let banded = mandelbrot_band_colors(values, quads, quids, palette_size, palette_zero_size);
    let nz = nonzero_pixel(values);
    let z = zero_pixel(values);
    let nk = value_quid_key(values, quids);
    let zk = quad_key(quads);
    let colored = Set::new(|i: int| 0 <= i < n && values[i] != 0 && banded[i] == c);
    let colored_zero = Set::new(|i: int| 0 <= i < n && values[i] == 0 && banded[i] == c);
    lemma_rank_bijection_where(n, nz, nk);
    lemma_rank_bijection_where(n, z, zk);
    lemma_keys_where(n, nz, nk);
    lemma_keys_where(n, z, zk);
    if 0 <= c < palette_size {
        lemma_rank_fairness(n, nz, nk, palette_size, c);
        assert(colored =~= colored_where(n, nz, nk, palette_size, c)) by {
            assert forall|i: int| 0 <= i < n && values[i] != 0 implies (banded[i] == c <==> rank_color(
                keys_where(n, nz, nk),
                0,
                palette_size,
                i,
            ) == c) by {
                assert(nz(i));
                lemma_band_bound(rank_of(keys_where(n, nz, nk), i), 0, keys_where(n, nz, nk).len() as int, palette_size);
            }
        }
    }
    if 0 <= c < palette_zero_size {
        lemma_rank_fairness(n, z, zk, palette_zero_size, c);
        assert(colored_zero =~= colored_where(n, z, zk, palette_zero_size, c)) by {
            assert forall|i: int| 0 <= i < n && values[i] == 0 implies (banded[i] == c <==> rank_color(
                keys_where(n, z, zk),
                0,
                palette_zero_size,
                i,
            ) == c) by {
                assert(z(i));
                lemma_band_bound(rank_of(keys_where(n, z, zk), i), 0, keys_where(n, z, zk).len() as int, palette_zero_size);
            }
        }
    }
}

} // verus!
