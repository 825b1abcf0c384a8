//! Migration of the field after zoom or pan: pixels whose origin still lies
//! inside the new area move to their new position, the other positions are
//! filled with fresh pixels.
use vstd::prelude::*;
use crate::area::{lemma_point_in_cell, Area};
use crate::data_image::{
    active_new, active_new_spec, hibernated_deep_black, hibernated_deep_black_spec, lemma_grid_index,
    origin_ok, Pixel,
};
use crate::machine::Machine;
use crate::pixel_states::DomainElementState;

verus! {

/// Position of an old pixel in the scan: quadrant (top left, top right,
/// bottom left, bottom right of the centre `(width / 2, height / 2)`), then
/// row and column counted from the quadrant's outer corner toward the centre.
pub open spec fn scan_key(width: int, height: int, x: int, y: int) -> (int, int, int) {
    let cx = width / 2;
    let cy = height / 2;
    let q = (if y < cy { 0int } else { 2int }) + (if x < cx { 0int } else { 1int });
    let row = if y < cy { y } else { height - 1 - y };
    let col = if x < cx { x } else { width - 1 - x };
    (q, row, col)
}

/// Lexicographic order of scan keys.
pub open spec fn key_lt(a: (int, int, int), b: (int, int, int)) -> bool {
    a.0 < b.0 || (a.0 == b.0 && (a.1 < b.1 || (a.1 == b.1 && a.2 < b.2)))
}

/// New position of the old pixel `(x, y)`: the pixel of the new area that
/// holds its origin, if the new area contains it.
pub open spec fn target(m: &Machine, x: int, y: int) -> Option<(int, int)> {
    let p = m.pixel(x, y);
    if m.area.contains_spec(p.origin_re as int, p.origin_im as int) {
        Some(m.area.point_to_pixel_spec(p.origin_re as int, p.origin_im as int))
    } else {
        None
    }
}

pub open spec fn cell(m: &Machine, c: (int, int)) -> bool {
    0 <= c.0 < m.width && 0 <= c.1 < m.height
}

/// Whether old pixel `c` is the last one that the scan moves to `(nx, ny)`.
pub open spec fn is_winner(m: &Machine, nx: int, ny: int, c: (int, int)) -> bool {
    &&& cell(m, c)
    &&& target(m, c.0, c.1) == Some((nx, ny))
    &&& forall|x: int, y: int|
        cell(m, (x, y)) && #[trigger] target(m, x, y) == Some((nx, ny)) ==> !key_lt(
            scan_key(m.width as int, m.height as int, c.0, c.1),
            scan_key(m.width as int, m.height as int, x, y),
        )
}

/// The old pixel that ends up at `(nx, ny)`: of those whose origin maps
/// there, the one scanned last, that is the one nearest the centre within
/// the last quadrant that has one.
pub open spec fn winner(m: &Machine, nx: int, ny: int) -> Option<(int, int)> {
    if exists|c: (int, int)| is_winner(m, nx, ny, c) {
        Some(choose|c: (int, int)| is_winner(m, nx, ny, c))
    } else {
        None
    }
}

/// A pixel after its move: a success becomes a success of the past
/// generation, and its colour is cleared.
pub open spec fn moved_pixel(p: Pixel) -> Pixel {
    Pixel {
        state: if p.state == DomainElementState::FinishedSuccess {
            DomainElementState::FinishedSuccessPast
        } else {
            p.state
        },
        colour: None,
        ..p
    }
}

/// A state that finished badly: too short, or for a Nebula-like fractal
/// also too long.
pub open spec fn finished_bad(state: DomainElementState, is_mandelbrot: bool) -> bool {
    state == DomainElementState::FinishedTooShort || (!is_mandelbrot && state
        == DomainElementState::FinishedTooLong)
}

/// Whether new position `(nx, ny)` has a neighbour inside the grid that
/// receives a moved pixel, and every such neighbour finished badly.
/// Neighbours that receive no pixel are not judged.
pub open spec fn all_neighbors_finished_bad_spec(m: &Machine, nx: int, ny: int, is_mandelbrot: bool) -> bool {
    &&& forall|k: int|
        0 <= k < 9 && k != 4 && cell(m, (nx + k % 3 - 1, ny + k / 3 - 1)) ==> (#[trigger] winner(
            m,
            nx + k % 3 - 1,
            ny + k / 3 - 1,
        ) matches Some(c) ==> finished_bad(m.pixel(c.0, c.1).state, is_mandelbrot))
    &&& exists|k: int|
        0 <= k < 9 && k != 4 && cell(m, (nx + k % 3 - 1, ny + k / 3 - 1)) && #[trigger] winner(
            m,
            nx + k % 3 - 1,
            ny + k / 3 - 1,
        ) is Some
}

/// The pixel at new position `(nx, ny)` after migration.
pub open spec fn migrated_pixel(m: &Machine, nx: int, ny: int, is_mandelbrot: bool) -> Pixel {
    match winner(m, nx, ny) {
        Some(c) => moved_pixel(m.pixel(c.0, c.1)),
        None => {
            let d = m.area.pixel_to_domain_spec(nx, ny);
            if all_neighbors_finished_bad_spec(m, nx, ny, is_mandelbrot) {
                hibernated_deep_black_spec(d.0 as i64, d.1 as i64)
            } else {
                active_new_spec(d.0 as i64, d.1 as i64)
            }
        },
    }
}

/// Whether the origin of pixel `(x, y)` lies inside the area, in the cell
/// of `(x, y)` itself.
pub open spec fn home_pixel(m: &Machine, x: int, y: int) -> bool {
    let p = m.pixel(x, y);
    &&& m.area.contains_spec(p.origin_re as int, p.origin_im as int)
    &&& m.area.point_to_pixel_spec(p.origin_re as int, p.origin_im as int) == (x, y)
}

/// New positions among the first `cols` of row `ny` that receive a moved
/// pixel.
pub open spec fn moved_in_row(m: &Machine, ny: int, cols: nat) -> nat
    decreases cols,
{
    if cols == 0 {
        0
    } else {
        moved_in_row(m, ny, (cols - 1) as nat) + if winner(m, cols - 1, ny) is Some {
            1nat
        } else {
            0nat
        }
    }
}

/// New positions among the first `rows` rows that receive a moved pixel.
pub open spec fn moved_count(m: &Machine, rows: nat) -> nat
    decreases rows,
{
    if rows == 0 {
        0
    } else {
        moved_count(m, (rows - 1) as nat) + moved_in_row(m, rows - 1, m.width as nat)
    }
}

pub open spec fn scanned(m: &Machine, pos: (int, int, int), x: int, y: int) -> bool {
    cell(m, (x, y)) && key_lt(scan_key(m.width as int, m.height as int, x, y), pos)
}

pub open spec fn src_at(src: Seq<Option<(usize, usize)>>, width: int, nx: int, ny: int) -> Option<(usize, usize)> {
    src[ny * width + nx]
}

pub open spec fn as_cell(o: Option<(usize, usize)>) -> Option<(int, int)> {
    match o {
        Some(c) => Some((c.0 as int, c.1 as int)),
        None => None,
    }
}

/// The sources found once the scan has passed every old pixel before `pos`.
pub open spec fn src_ok(m: &Machine, src: Seq<Option<(usize, usize)>>, pos: (int, int, int)) -> bool {
    let w = m.width as int;
    let h = m.height as int;
    &&& src.len() == w * h
    &&& forall|nx: int, ny: int|
        cell(m, (nx, ny)) ==> match #[trigger] src_at(src, w, nx, ny) {
            Some(c) => {
                &&& cell(m, (c.0 as int, c.1 as int))
                &&& target(m, c.0 as int, c.1 as int) == Some((nx, ny))
                &&& scanned(m, pos, c.0 as int, c.1 as int)
                &&& forall|x: int, y: int|
                    scanned(m, pos, x, y) && #[trigger] target(m, x, y) == Some((nx, ny)) ==> !key_lt(
                        scan_key(w, h, c.0 as int, c.1 as int),
                        scan_key(w, h, x, y),
                    )
            },
            None => true,
        }
    &&& forall|x: int, y: int|
        scanned(m, pos, x, y) && #[trigger] target(m, x, y) is Some ==> src_at(
            src,
            w,
            target(m, x, y)->Some_0.0,
            target(m, x, y)->Some_0.1,
        ) is Some
}

proof fn lemma_src_ok_same_scanned(
    m: &Machine,
    src: Seq<Option<(usize, usize)>>,
    pos1: (int, int, int),
    pos2: (int, int, int),
)
    requires
        src_ok(m, src, pos1),
        forall|x: int, y: int| cell(m, (x, y)) ==> (scanned(m, pos1, x, y) <==> scanned(m, pos2, x, y)),
    ensures
        src_ok(m, src, pos2),
{
    let w = m.width as int;
    let h = m.height as int;
    assert forall|nx: int, ny: int| cell(m, (nx, ny)) implies match #[trigger] src_at(src, w, nx, ny) {
        Some(c) => {
            &&& cell(m, (c.0 as int, c.1 as int))
            &&& target(m, c.0 as int, c.1 as int) == Some((nx, ny))
            &&& scanned(m, pos2, c.0 as int, c.1 as int)
            &&& forall|x: int, y: int|
                scanned(m, pos2, x, y) && #[trigger] target(m, x, y) == Some((nx, ny)) ==> !key_lt(
                    scan_key(w, h, c.0 as int, c.1 as int),
                    scan_key(w, h, x, y),
                )
        },
        None => true,
    } by {
        match src_at(src, w, nx, ny) {
            Some(c) => {
                assert forall|x: int, y: int|
                    scanned(m, pos2, x, y) && #[trigger] target(m, x, y) == Some((nx, ny)) implies !key_lt(
                    scan_key(w, h, c.0 as int, c.1 as int),
                    scan_key(w, h, x, y),
                ) by {
                    assert(scanned(m, pos1, x, y));
                }
            },
            None => {},
        }
    }
    assert forall|x: int, y: int| scanned(m, pos2, x, y) && #[trigger] target(m, x, y) is Some implies src_at(
        src,
        w,
        target(m, x, y)->Some_0.0,
        target(m, x, y)->Some_0.1,
    ) is Some by {
        assert(scanned(m, pos1, x, y));
    }
}

proof fn lemma_target_cell(m: &Machine, x: int, y: int)
    requires
        m.wf(),
        target(m, x, y) is Some,
    ensures
        cell(m, target(m, x, y)->Some_0),
{
    let p = m.pixel(x, y);
    lemma_point_in_cell(m.area, p.origin_re as int, p.origin_im as int);
}

proof fn lemma_index_distinct(w: int, h: int, x1: int, y1: int, x2: int, y2: int)
    requires
        0 <= x1 < w,
        0 <= x2 < w,
        0 <= y1 < h,
        0 <= y2 < h,
        (x1, y1) != (x2, y2),
    ensures
        y1 * w + x1 != y2 * w + x2,
{
    assert(y1 * w + x1 != y2 * w + x2) by (nonlinear_arith)
        requires 0 <= x1 < w, 0 <= x2 < w, x1 != x2 || y1 != y2;
}

/// For each new position, the old pixel that moves there, scanning the four
/// quadrants from their outer corners toward the centre; a later pixel
/// overwrites an earlier one.
pub fn scan_moves(m: &Machine) -> (src: Vec<Option<(usize, usize)>>)
    requires
        m.wf(),
    ensures
        src@.len() == m.width * m.height,
        forall|nx: int, ny: int|
            cell(m, (nx, ny)) ==> as_cell(#[trigger] src_at(src@, m.width as int, nx, ny)) == winner(m, nx, ny),
{
    let w = m.width;
    let h = m.height;
    let n = m.data_image.pixels.len();
    let cx = w / 2;
    let cy = h / 2;
    let mut src: Vec<Option<(usize, usize)>> = Vec::new();
    while src.len() < n
        invariant
            src@.len() <= n,
            forall|j: int| 0 <= j < src@.len() ==> src@[j] is None,
        decreases n - src@.len(),
    {
        src.push(None);
    }
    proof {
        assert forall|x: int, y: int| cell(m, (x, y)) implies !scanned(m, (0, 0, 0), x, y) by {}
        assert(src@.len() == n);
        assert(n == (w as int) * (h as int));
        assert forall|nx: int, ny: int| cell(m, (nx, ny)) implies #[trigger] src_at(src@, w as int, nx, ny) is None by {
            lemma_grid_index(w as int, h as int, nx, ny);
        }
        assert(src_ok(m, src@, (0, 0, 0)));
    }
    let mut q: usize = 0;
    while q < 4
        invariant
            m.wf(),
            w == m.width,
            h == m.height,
            n == w * h,
            cx == w / 2,
            cy == h / 2,
            q <= 4,
            src_ok(m, src@, (q as int, 0, 0)),
        decreases 4 - q,
    {
        let rows = if q < 2 {
            cy
        } else {
            h - cy
        };
        let cols = if q % 2 == 0 {
            cx
        } else {
            w - cx
        };
        let mut r: usize = 0;
        while r < rows
            invariant
                m.wf(),
                w == m.width,
                h == m.height,
                n == w * h,
                cx == w / 2,
                cy == h / 2,
                q < 4,
                rows == if q < 2 { cy as int } else { h - cy },
                cols == if q % 2 == 0 { cx as int } else { w - cx },
                r <= rows,
                src_ok(m, src@, (q as int, r as int, 0)),
            decreases rows - r,
        {
            let y = if q < 2 {
                r
            } else {
                h - 1 - r
            };
            let mut k: usize = 0;
            while k < cols
                invariant
                    m.wf(),
                    w == m.width,
                    h == m.height,
                    n == w * h,
                    cx == w / 2,
                    cy == h / 2,
                    q < 4,
                    rows == if q < 2 { cy as int } else { h - cy },
                    cols == if q % 2 == 0 { cx as int } else { w - cx },
                    r < rows,
                    y == if q < 2 { r as int } else { h - 1 - r },
                    k <= cols,
                    src_ok(m, src@, (q as int, r as int, k as int)),
                decreases cols - k,
            {
                let x = if q % 2 == 0 {
                    k
                } else {
                    w - 1 - k
                };
                let ghost pos = (q as int, r as int, k as int);
                let ghost next = (q as int, r as int, k + 1);
                assert(scan_key(w as int, h as int, x as int, y as int) == pos);
                proof {
                    assert forall|x2: int, y2: int| cell(m, (x2, y2)) implies (scanned(m, next, x2, y2) <==> (
                    scanned(m, pos, x2, y2) || (x2 == x && y2 == y))) by {}
                }
                let ghost before = src@;
                let (_, origin_re, origin_im) = m.data_image.state_origin_at(x, y);
                if m.area.contains(origin_re, origin_im) {
                    let (nx, ny) = m.area.point_to_pixel(origin_re, origin_im);
                    proof {
                        lemma_grid_index(w as int, h as int, nx as int, ny as int);
                    }
                    src.set(ny * w + nx, Some((x, y)));
                    proof {
                        let wi = w as int;
                        let hi = h as int;
                        assert(target(m, x as int, y as int) == Some((nx as int, ny as int)));
                        assert forall|a: int, b: int| cell(m, (a, b)) && (a, b) != (nx as int, ny as int) implies src_at(
                            src@,
                            wi,
                            a,
                            b,
                        ) == src_at(before, wi, a, b) by {
                            lemma_index_distinct(wi, hi, a, b, nx as int, ny as int);
                            lemma_grid_index(wi, hi, a, b);
                        }
                        assert forall|a: int, b: int| cell(m, (a, b)) implies match #[trigger] src_at(src@, wi, a, b) {
                            Some(c) => {
                                &&& cell(m, (c.0 as int, c.1 as int))
                                &&& target(m, c.0 as int, c.1 as int) == Some((a, b))
                                &&& scanned(m, next, c.0 as int, c.1 as int)
                                &&& forall|x2: int, y2: int|
                                    scanned(m, next, x2, y2) && #[trigger] target(m, x2, y2) == Some((a, b))
                                        ==> !key_lt(scan_key(wi, hi, c.0 as int, c.1 as int), scan_key(wi, hi, x2, y2))
                            },
                            None => true,
                        } by {
                            if (a, b) != (nx as int, ny as int) {
                                match src_at(before, wi, a, b) {
                                    Some(c) => {
                                        assert forall|x2: int, y2: int|
                                            scanned(m, next, x2, y2) && #[trigger] target(m, x2, y2) == Some((a, b))
                                                implies !key_lt(
                                            scan_key(wi, hi, c.0 as int, c.1 as int),
                                            scan_key(wi, hi, x2, y2),
                                        ) by {
                                            assert(scanned(m, pos, x2, y2));
                                        }
                                    },
                                    None => {},
                                }
                            }
                        }
                        assert forall|x2: int, y2: int|
                            scanned(m, next, x2, y2) && #[trigger] target(m, x2, y2) is Some implies src_at(
                            src@,
                            wi,
                            target(m, x2, y2)->Some_0.0,
                            target(m, x2, y2)->Some_0.1,
                        ) is Some by {
                            let t = target(m, x2, y2)->Some_0;
                            lemma_target_cell(m, x2, y2);
                            if t != (nx as int, ny as int) {
                                assert(scanned(m, pos, x2, y2));
                                assert(src_at(src@, wi, t.0, t.1) == src_at(before, wi, t.0, t.1));
                            } else {
                                lemma_grid_index(wi, hi, t.0, t.1);
                            }
                        }
                    }
                } else {
                    proof {
                        let wi = w as int;
                        let hi = h as int;
                        assert(target(m, x as int, y as int) is None);
                        assert forall|a: int, b: int| cell(m, (a, b)) implies match #[trigger] src_at(src@, wi, a, b) {
                            Some(c) => {
                                &&& cell(m, (c.0 as int, c.1 as int))
                                &&& target(m, c.0 as int, c.1 as int) == Some((a, b))
                                &&& scanned(m, next, c.0 as int, c.1 as int)
                                &&& forall|x2: int, y2: int|
                                    scanned(m, next, x2, y2) && #[trigger] target(m, x2, y2) == Some((a, b))
                                        ==> !key_lt(scan_key(wi, hi, c.0 as int, c.1 as int), scan_key(wi, hi, x2, y2))
                            },
                            None => true,
                        } by {
                            match src_at(src@, wi, a, b) {
                                Some(c) => {
                                    assert forall|x2: int, y2: int|
                                        scanned(m, next, x2, y2) && #[trigger] target(m, x2, y2) == Some((a, b))
                                            implies !key_lt(
                                        scan_key(wi, hi, c.0 as int, c.1 as int),
                                        scan_key(wi, hi, x2, y2),
                                    ) by {
                                        assert(scanned(m, pos, x2, y2));
                                    }
                                },
                                None => {},
                            }
                        }
                        assert forall|x2: int, y2: int|
                            scanned(m, next, x2, y2) && #[trigger] target(m, x2, y2) is Some implies src_at(
                            src@,
                            wi,
                            target(m, x2, y2)->Some_0.0,
                            target(m, x2, y2)->Some_0.1,
                        ) is Some by {
                            assert(scanned(m, pos, x2, y2));
                        }
                    }
                }
                k += 1;
            }
            proof {
                assert forall|x2: int, y2: int| cell(m, (x2, y2)) implies (scanned(m, (q as int, r as int, k as int), x2, y2)
                    <==> scanned(m, (q as int, r + 1, 0), x2, y2)) by {}
                lemma_src_ok_same_scanned(m, src@, (q as int, r as int, k as int), (q as int, r + 1, 0));
            }
            r += 1;
        }
        proof {
            assert forall|x2: int, y2: int| cell(m, (x2, y2)) implies (scanned(m, (q as int, r as int, 0), x2, y2)
                <==> scanned(m, (q + 1, 0, 0), x2, y2)) by {}
            lemma_src_ok_same_scanned(m, src@, (q as int, r as int, 0), (q + 1, 0, 0));
        }
        q += 1;
    }
    proof {
        let wi = w as int;
        let hi = h as int;
        assert forall|x2: int, y2: int| cell(m, (x2, y2)) implies scanned(m, (4, 0, 0), x2, y2) by {}
        assert forall|nx: int, ny: int| cell(m, (nx, ny)) implies as_cell(#[trigger] src_at(src@, wi, nx, ny))
            == winner(m, nx, ny) by {
            match src_at(src@, wi, nx, ny) {
                Some(c) => {
                    let cc = (c.0 as int, c.1 as int);
                    assert(is_winner(m, nx, ny, cc));
                    let d = choose|d: (int, int)| is_winner(m, nx, ny, d);
                    assert(!key_lt(scan_key(wi, hi, cc.0, cc.1), scan_key(wi, hi, d.0, d.1)));
                    assert(!key_lt(scan_key(wi, hi, d.0, d.1), scan_key(wi, hi, cc.0, cc.1)));
                    assert(d == cc);
                },
                None => {
                    if exists|c: (int, int)| is_winner(m, nx, ny, c) {
                        let d = choose|d: (int, int)| is_winner(m, nx, ny, d);
                        assert(target(m, d.0, d.1) is Some);
                    }
                },
            }
        }
    }
    src
}

/// Whether every neighbour of new position `(x, y)` inside the grid
/// receives a moved pixel that finished badly; `src` holds the moves.
pub fn all_neighbors_finished_bad(
    m: &Machine,
    src: &Vec<Option<(usize, usize)>>,
    x: usize,
    y: usize,
    is_mandelbrot: bool,
) -> (r: bool)
    requires
        m.wf(),
        x < m.width,
        y < m.height,
        src@.len() == m.width * m.height,
        forall|nx: int, ny: int|
            cell(m, (nx, ny)) ==> as_cell(#[trigger] src_at(src@, m.width as int, nx, ny)) == winner(m, nx, ny),
    ensures
        r == all_neighbors_finished_bad_spec(m, x as int, y as int, is_mandelbrot),
{
    let w = m.width;
    let h = m.height;
    let n = src.len();
    let mut any = false;
    let mut k: usize = 0;
    while k < 9
        invariant
            m.wf(),
            n == w * h,
            w == m.width,
            h == m.height,
            x < w,
            y < h,
            k <= 9,
            src@.len() == w * h,
            forall|nx: int, ny: int|
                cell(m, (nx, ny)) ==> as_cell(#[trigger] src_at(src@, w as int, nx, ny)) == winner(m, nx, ny),
            forall|j: int|
                0 <= j < k && j != 4 && cell(m, (x + j % 3 - 1, y + j / 3 - 1)) ==> (#[trigger] winner(
                    m,
                    x + j % 3 - 1,
                    y + j / 3 - 1,
                ) matches Some(c) ==> finished_bad(m.pixel(c.0, c.1).state, is_mandelbrot)),
            any == exists|j: int|
                0 <= j < k && j != 4 && cell(m, (x + j % 3 - 1, y + j / 3 - 1)) && #[trigger] winner(
                    m,
                    x + j % 3 - 1,
                    y + j / 3 - 1,
                ) is Some,
        decreases 9 - k,
    {
        if k != 4 && x + k % 3 >= 1 && x + k % 3 - 1 < w && y + k / 3 >= 1 && y + k / 3 - 1 < h {
            let nx = x + k % 3 - 1;
            let ny = y + k / 3 - 1;
            proof {
                lemma_grid_index(w as int, h as int, nx as int, ny as int);
            }
            assert(as_cell(src_at(src@, w as int, nx as int, ny as int)) == winner(m, nx as int, ny as int));
            match src[ny * w + nx] {
                Some((ox, oy)) => {
                    assert(is_winner(m, nx as int, ny as int, (ox as int, oy as int)));
                    let (state, _, _) = m.data_image.state_origin_at(ox, oy);
                    let bad = matches!(state, DomainElementState::FinishedTooShort) || (!is_mandelbrot
                        && matches!(state, DomainElementState::FinishedTooLong));
                    if !bad {
                        return false;
                    }
                    any = true;
                },
                None => {},
            }
        }
        k += 1;
    }
    any
}

impl Machine {
    /// Migrates the field onto the machine's area after a zoom or a pan:
    /// each old pixel whose origin lies inside the area moves to the pixel
    /// that holds its origin (the pixel scanned last wins), and each position
    /// that receives none gets a fresh pixel, hibernated where all its
    /// neighbours finished badly. Returns the moved and the created counts.
    pub fn recalculate_pixels_positions_for_next_calculation(&mut self, is_mandelbrot: bool) -> (r: (
        usize,
        usize,
    ))
        requires
            old(self).wf(),
        ensures
            final(self).wf(),
            final(self).same_setup(old(self)),
            forall|x: int, y: int|
                cell(old(self), (x, y)) ==> #[trigger] final(self).pixel(x, y) == migrated_pixel(
                    old(self),
                    x,
                    y,
                    is_mandelbrot,
                ),
            r.0 == moved_count(old(self), old(self).height as nat),
            r.0 + r.1 == old(self).width * old(self).height,
            (exists|x: int, y: int| cell(old(self), (x, y)) && #[trigger] target(old(self), x, y) is Some) ==> r.0 > 0,
            (exists|x: int, y: int| cell(old(self), (x, y)) && #[trigger] target(old(self), x, y) is None) ==> r.1 > 0,
            old(self).area.plank > 0 ==> forall|x: int, y: int|
                cell(old(self), (x, y)) ==> home_pixel(final(self), x, y),
    {
        let src = scan_moves(self);
        let w = self.width;
        let h = self.height;
        let ghost m = *self;
        let n = src.len();
        let mut pixels: Vec<Pixel> = Vec::new();
        let mut moved: usize = 0;
        let mut created: usize = 0;
        let mut y: usize = 0;
        while y < h
            invariant
                self.wf(),
                *self == m,
                w == m.width,
                h == m.height,
                y <= h,
                n == w * h,
                src@.len() == w * h,
                forall|nx: int, ny: int|
                    cell(&m, (nx, ny)) ==> as_cell(#[trigger] src_at(src@, w as int, nx, ny)) == winner(&m, nx, ny),
                pixels@.len() == y * w,
                moved + created == y * w,
                moved == moved_count(&m, y as nat),
                forall|i: int| 0 <= i < pixels@.len() ==> origin_ok(#[trigger] pixels@[i]),
                forall|x2: int, y2: int|
                    0 <= x2 < w && 0 <= y2 < y ==> #[trigger] pixels@[y2 * w + x2] == migrated_pixel(
                        &m,
                        x2,
                        y2,
                        is_mandelbrot,
                    ),
            decreases h - y,
        {
            let mut x: usize = 0;
            while x < w
                invariant
                    self.wf(),
                    *self == m,
                    w == m.width,
                    h == m.height,
                    y < h,
                    x <= w,
                    n == w * h,
                    src@.len() == w * h,
                    forall|nx: int, ny: int|
                        cell(&m, (nx, ny)) ==> as_cell(#[trigger] src_at(src@, w as int, nx, ny)) == winner(
                            &m,
                            nx,
                            ny,
                        ),
                    pixels@.len() == y * w + x,
                    moved + created == y * w + x,
                    moved == moved_count(&m, y as nat) + moved_in_row(&m, y as int, x as nat),
                    forall|i: int| 0 <= i < pixels@.len() ==> origin_ok(#[trigger] pixels@[i]),
                    forall|x2: int, y2: int|
                        0 <= x2 < w && 0 <= y2 && (y2 < y || (y2 == y && x2 < x)) ==> #[trigger] pixels@[y2 * w
                            + x2] == migrated_pixel(&m, x2, y2, is_mandelbrot),
                decreases w - x,
            {
                proof {
                    lemma_grid_index(w as int, h as int, x as int, y as int);
                    assert(as_cell(src_at(src@, w as int, x as int, y as int)) == winner(&m, x as int, y as int));
                }
                let p = match src[y * w + x] {
                    Some((ox, oy)) => {
                        proof {
                            lemma_grid_index(w as int, h as int, ox as int, oy as int);
                            assert(is_winner(&m, x as int, y as int, (ox as int, oy as int)));
                        }
                        let q = self.data_image.pixels[oy * w + ox];
                        assert(origin_ok(self.data_image.pixels@[oy * w + ox]));
                        moved += 1;
                        Pixel {
                            state: if matches!(q.state, DomainElementState::FinishedSuccess) {
                                DomainElementState::FinishedSuccessPast
                            } else {
                                q.state
                            },
                            colour: None,
                            ..q
                        }
                    },
                    None => {
                        created += 1;
                        let (re, im) = self.area.pixel_to_domain(x, y);
                        if all_neighbors_finished_bad(self, &src, x, y, is_mandelbrot) {
                            // too far from any good orbit: skip this position
                            hibernated_deep_black(re, im)
                        } else {
                            active_new(re, im)
                        }
                    },
                };
                let ghost before = pixels@;
                pixels.push(p);
                proof {
                    assert forall|x2: int, y2: int|
                        0 <= x2 < w && 0 <= y2 && (y2 < y || (y2 == y && x2 < x + 1)) implies #[trigger] pixels@[y2
                        * w + x2] == migrated_pixel(&m, x2, y2, is_mandelbrot) by {
                        if y2 < y || x2 < x {
                            assert(0 <= y2 * w + x2 < y * w + x) by (nonlinear_arith)
                                requires 0 <= x < w, 0 <= x2 < w, 0 <= y2, y2 < y || (y2 == y && x2 < x);
                            assert(pixels@[y2 * w + x2] == before[y2 * w + x2]);
                        }
                    }
                }
                x += 1;
            }
            assert(pixels@.len() == (y + 1) * w) by (nonlinear_arith)
                requires pixels@.len() == y * w + w;
            assert(moved + created == (y + 1) * w) by (nonlinear_arith)
                requires moved + created == y * w + w;
            y += 1;
        }
        assert(pixels@.len() == w * h) by (nonlinear_arith)
            requires pixels@.len() == y * w, y == h;
        assert(moved + created == w * h) by (nonlinear_arith)
            requires moved + created == y * w, y == h;
        proof {
            if exists|x: int, y: int| cell(&m, (x, y)) && #[trigger] target(&m, x, y) is Some {
                let (x, y) = choose|x: int, y: int| cell(&m, (x, y)) && #[trigger] target(&m, x, y) is Some;
                lemma_target_cell(&m, x, y);
                let t = target(&m, x, y)->Some_0;
                lemma_winner_exists(&m, x, y);
                lemma_moved_count_positive(&m, t.0, t.1, h as nat);
            }
            if exists|x: int, y: int| cell(&m, (x, y)) && #[trigger] target(&m, x, y) is None {
                let (x, y) = choose|x: int, y: int| cell(&m, (x, y)) && #[trigger] target(&m, x, y) is None;
                lemma_some_created(&m, x, y);
            }
        }
        self.data_image.pixels = pixels;
        proof {
            if m.area.plank > 0 {
                assert forall|x: int, y: int| cell(&m, (x, y)) implies home_pixel(self, x, y) by {
                    assert(self.pixel(x, y) == migrated_pixel(&m, x, y, is_mandelbrot));
                    match winner(&m, x, y) {
                        Some(c) => {
                            assert(is_winner(&m, x, y, c));
                        },
                        None => {
                            crate::area::lemma_round_trip(m.area, x, y);
                            crate::area::lemma_area_bounds(m.area);
                            let pl = m.area.plank as int;
                            assert(0 <= x * pl <= pl * m.width && 0 <= y * pl <= pl * m.height) by (nonlinear_arith)
                                requires 0 <= x < m.width, 0 <= y < m.height, pl >= 0;
                        },
                    }
                }
            }
        }
        (moved, created)
    }
}

/// The machine with its area zoomed in once, its field unchanged.
pub open spec fn zoomed(m: Machine) -> Machine {
    Machine {
        area: Area {
            plank: ((m.area.plank as int) * (crate::area::ZOOM_NUMERATOR as int) / (
            crate::area::ZOOM_DENOMINATOR as int)) as i64,
            ..m.area
        },
        ..m
    }
}

impl Machine {
    /// Zooms the area in by the zoom factor, keeping its centre.
    pub fn zoom_in(&mut self)
        requires
            old(self).wf(),
        ensures
            final(self).wf(),
            *final(self) == zoomed(*old(self)),
            final(self).data_image.pixels@ == old(self).data_image.pixels@,
            final(self).area.plank == (old(self).area.plank as int) * (crate::area::ZOOM_NUMERATOR as int) / (
            crate::area::ZOOM_DENOMINATOR as int),
            final(self).area.center_re == old(self).area.center_re,
            final(self).area.center_im == old(self).area.center_im,
            final(self).width == old(self).width,
            final(self).height == old(self).height,
    {
        self.area.zoom_in();
    }

    /// Moves the centre of the area to pixel `(x, y)`.
    pub fn move_target(&mut self, x: usize, y: usize)
        requires
            old(self).wf(),
            x < old(self).width,
            y < old(self).height,
        ensures
            final(self).wf(),
            final(self).data_image.pixels@ == old(self).data_image.pixels@,
            final(self).area.plank == old(self).area.plank,
            final(self).area.center_re == crate::area::clamp_center(
                old(self).area.pixel_to_domain_spec(x as int, y as int).0,
            ),
            final(self).area.center_im == crate::area::clamp_center(
                old(self).area.pixel_to_domain_spec(x as int, y as int).1,
            ),
            final(self).width == old(self).width,
            final(self).height == old(self).height,
    {
        self.area.move_target(x, y);
    }

    /// Zooms in, then migrates the field onto the new area; returns the
    /// moved and the created counts.
    pub fn zoom_in_recalculate_pixel_positions(&mut self, is_mandelbrot: bool) -> (r: (usize, usize))
        requires
            old(self).wf(),
        ensures
            final(self).wf(),
            r.0 + r.1 == old(self).width * old(self).height,
            final(self).area.plank == (old(self).area.plank as int) * (crate::area::ZOOM_NUMERATOR as int) / (
            crate::area::ZOOM_DENOMINATOR as int),
            final(self).area.center_re == old(self).area.center_re,
            final(self).area.center_im == old(self).area.center_im,
            final(self).width == old(self).width,
            final(self).height == old(self).height,
            final(self).min == old(self).min,
            final(self).max == old(self).max,
            final(self).orbits == old(self).orbits,
            final(self).resolution_multiplier == old(self).resolution_multiplier,
            final(self).palette_size == old(self).palette_size,
            final(self).palette_zero_size == old(self).palette_zero_size,
            forall|x: int, y: int|
                cell(old(self), (x, y)) ==> #[trigger] final(self).pixel(x, y) == migrated_pixel(
                    &zoomed(*old(self)),
                    x,
                    y,
                    is_mandelbrot,
                ),
            r.0 == moved_count(&zoomed(*old(self)), old(self).height as nat),
            zoomed(*old(self)).area.plank > 0 && old(self).pixel(
                (old(self).width / 2) as int,
                (old(self).height / 2) as int,
            ).origin_re == old(self).area.center_re && old(self).pixel(
                (old(self).width / 2) as int,
                (old(self).height / 2) as int,
            ).origin_im == old(self).area.center_im ==> r.0 > 0,
            zoomed(*old(self)).area.plank < old(self).area.plank && old(self).width >= 2 && old(self).pixel(0, 0).origin_re
                == old(self).area.left() ==> r.1 > 0,
    {
        self.zoom_in();
        assert(*self == zoomed(*old(self)));
        proof {
            let m = *self;
            if m.area.plank > 0 && m.pixel((m.width / 2) as int, (m.height / 2) as int).origin_re == m.area.center_re
                && m.pixel((m.width / 2) as int, (m.height / 2) as int).origin_im == m.area.center_im {
                lemma_centre_moves(&m);
                assert(cell(&m, ((m.width / 2) as int, (m.height / 2) as int)));
            }
            let o = *old(self);
            if m.area.plank < o.area.plank && o.width >= 2 && o.pixel(0, 0).origin_re == o.area.left() {
                let pl = o.area.plank as int;
                let np = m.area.plank as int;
                let half = (o.width / 2) as int;
                assert(np * half < pl * half) by (nonlinear_arith)
                    requires np < pl, half >= 1;
                assert(m.pixel(0, 0) == o.pixel(0, 0));
                assert(target(&m, 0, 0) is None);
                assert(cell(&m, (0, 0)));
            }
        }
        self.recalculate_pixels_positions_for_next_calculation(is_mandelbrot)
    }
}

/// Migration completeness: the moved and created counts add up to the
/// grid, and no old pixel moves to two positions.
pub proof fn lemma_migration_complete(m: &Machine, is_mandelbrot: bool, x1: int, y1: int, x2: int, y2: int)
    requires
        m.wf(),
        cell(m, (x1, y1)),
        cell(m, (x2, y2)),
        (x1, y1) != (x2, y2),
        winner(m, x1, y1) is Some,
        winner(m, x2, y2) is Some,
    ensures
        winner(m, x1, y1) != winner(m, x2, y2),
        moved_count(m, m.height as nat) <= m.width * m.height,
{
    let c1 = choose|c: (int, int)| is_winner(m, x1, y1, c);
    let c2 = choose|c: (int, int)| is_winner(m, x2, y2, c);
    assert(target(m, c1.0, c1.1) == Some((x1, y1)));
    assert(target(m, c2.0, c2.1) == Some((x2, y2)));
    lemma_moved_count_bound(m, m.height as nat);
}

proof fn lemma_moved_in_row_bound(m: &Machine, ny: int, cols: nat)
    ensures
        moved_in_row(m, ny, cols) <= cols,
    decreases cols,
{
    if cols > 0 {
        lemma_moved_in_row_bound(m, ny, (cols - 1) as nat);
    }
}

proof fn lemma_moved_count_bound(m: &Machine, rows: nat)
    ensures
        moved_count(m, rows) <= rows * m.width,
    decreases rows,
{
    if rows > 0 {
        lemma_moved_count_bound(m, (rows - 1) as nat);
        lemma_moved_in_row_bound(m, rows - 1, m.width as nat);
        assert((rows - 1) * m.width + m.width == rows * m.width) by (nonlinear_arith);
    }
    assert(rows * m.width == m.width * rows) by (nonlinear_arith);
}

proof fn lemma_winner_exists(m: &Machine, x: int, y: int)
    requires
        m.wf(),
        cell(m, (x, y)),
        target(m, x, y) is Some,
    ensures
        winner(m, target(m, x, y)->Some_0.0, target(m, x, y)->Some_0.1) is Some,
{
    let t = target(m, x, y)->Some_0;
    lemma_count_above_bound(m, t.0, t.1, x, y);
    lemma_winner_exists_from(m, t.0, t.1, x, y, (5 * m.width * m.height) as nat);
}

/// Among the pixels that map to `(nx, ny)`, one with the greatest scan key
/// exists, found by descending from any of them.
proof fn lemma_winner_exists_from(m: &Machine, nx: int, ny: int, x: int, y: int, fuel: nat)
    requires
        m.wf(),
        cell(m, (x, y)),
        target(m, x, y) == Some((nx, ny)),
        fuel >= count_above(m, nx, ny, x, y),
    ensures
        exists|c: (int, int)| is_winner(m, nx, ny, c),
    decreases fuel,
{
    let w = m.width as int;
    let h = m.height as int;
    if exists|x2: int, y2: int|
        cell(m, (x2, y2)) && #[trigger] target(m, x2, y2) == Some((nx, ny)) && key_lt(
            scan_key(w, h, x, y),
            scan_key(w, h, x2, y2),
        ) {
        let (x2, y2) = choose|x2: int, y2: int|
            cell(m, (x2, y2)) && #[trigger] target(m, x2, y2) == Some((nx, ny)) && key_lt(
                scan_key(w, h, x, y),
                scan_key(w, h, x2, y2),
            );
        lemma_count_above_decreases(m, nx, ny, x, y, x2, y2);
        lemma_winner_exists_from(m, nx, ny, x2, y2, (fuel - 1) as nat);
    } else {
        assert(is_winner(m, nx, ny, (x, y)));
    }
}

/// Number of scan positions after the key of `(x, y)`: a bound on how far
/// the descent can go.
pub open spec fn count_above(m: &Machine, nx: int, ny: int, x: int, y: int) -> nat {
    let k = scan_key(m.width as int, m.height as int, x, y);
    ((3 - k.0) * (m.height * m.width) + (m.height - k.1) * m.width + (m.width - k.2)) as nat
}

proof fn lemma_count_above_decreases(m: &Machine, nx: int, ny: int, x: int, y: int, x2: int, y2: int)
    requires
        m.wf(),
        cell(m, (x, y)),
        cell(m, (x2, y2)),
        key_lt(scan_key(m.width as int, m.height as int, x, y), scan_key(m.width as int, m.height as int, x2, y2)),
    ensures
        count_above(m, nx, ny, x2, y2) < count_above(m, nx, ny, x, y),
{
    let w = m.width as int;
    let h = m.height as int;
    let k1 = scan_key(w, h, x, y);
    let k2 = scan_key(w, h, x2, y2);
    assert(0 <= k1.0 <= 3 && 0 <= k1.1 < h && 0 <= k1.2 < w);
    assert(0 <= k2.0 <= 3 && 0 <= k2.1 < h && 0 <= k2.2 < w);
    assert((3 - k2.0) * (h * w) + (h - k2.1) * w + (w - k2.2) < (3 - k1.0) * (h * w) + (h - k1.1) * w + (w - k1.2))
        by (nonlinear_arith)
        requires
            0 <= k1.0 <= 3,
            0 <= k1.1 < h,
            0 <= k1.2 < w,
            0 <= k2.0 <= 3,
            0 <= k2.1 < h,
            0 <= k2.2 < w,
            k1.0 < k2.0 || (k1.0 == k2.0 && (k1.1 < k2.1 || (k1.1 == k2.1 && k1.2 < k2.2))),
    ;
}

proof fn lemma_count_above_bound(m: &Machine, nx: int, ny: int, x: int, y: int)
    requires
        m.wf(),
        cell(m, (x, y)),
    ensures
        count_above(m, nx, ny, x, y) <= 5 * m.width * m.height,
{
    let w = m.width as int;
    let h = m.height as int;
    let k1 = scan_key(w, h, x, y);
    assert(0 <= k1.0 <= 3 && 0 <= k1.1 < h && 0 <= k1.2 < w);
    assert((3 - k1.0) * (h * w) + (h - k1.1) * w + (w - k1.2) <= 5 * w * h) by (nonlinear_arith)
        requires 0 <= k1.0 <= 3, 0 <= k1.1 < h, 0 <= k1.2 < w, h >= 1;
}

proof fn lemma_moved_in_row_positive(m: &Machine, nx: int, ny: int, cols: nat)
    requires
        0 <= nx < cols,
        winner(m, nx, ny) is Some,
    ensures
        moved_in_row(m, ny, cols) >= 1,
    decreases cols,
{
    if nx < cols - 1 {
        lemma_moved_in_row_positive(m, nx, ny, (cols - 1) as nat);
    }
}

/// A new position that receives a moved pixel makes the moved count
/// positive.
proof fn lemma_moved_count_positive(m: &Machine, nx: int, ny: int, rows: nat)
    requires
        0 <= nx < m.width,
        0 <= ny < rows,
        winner(m, nx, ny) is Some,
    ensures
        moved_count(m, rows) >= 1,
    decreases rows,
{
    if ny < rows - 1 {
        lemma_moved_count_positive(m, nx, ny, (rows - 1) as nat);
    } else {
        lemma_moved_in_row_positive(m, nx, ny, m.width as nat);
    }
}

/// After a zoom around the area's centre, the pixel at the centre of a
/// fresh grid, whose origin is that centre, maps inside the new area: some
/// pixel moves.
pub proof fn lemma_centre_moves(m: &Machine)
    requires
        m.wf(),
        m.area.plank > 0,
        m.pixel((m.width / 2) as int, (m.height / 2) as int).origin_re == m.area.center_re,
        m.pixel((m.width / 2) as int, (m.height / 2) as int).origin_im == m.area.center_im,
    ensures
        target(m, (m.width / 2) as int, (m.height / 2) as int) is Some,
{
    let a = m.area;
    let p = a.plank as int;
    assert(0 <= p * (a.width_x / 2) < p * a.width_x) by (nonlinear_arith)
        requires p > 0, a.width_x > 0;
    assert(0 <= p * (a.height_y / 2) < p * a.height_y) by (nonlinear_arith)
        requires p > 0, a.height_y > 0;
}

/// New positions of row `ny`, among the first `cols`, that receive a
/// moved pixel.
pub open spec fn moved_row_set(m: &Machine, ny: int, cols: int) -> Set<(int, int)> {
    Set::new(|p: (int, int)| 0 <= p.0 < cols && p.1 == ny && winner(m, p.0, p.1) is Some)
}

/// New positions among the first `rows` rows that receive a moved pixel.
pub open spec fn moved_set(m: &Machine, rows: int) -> Set<(int, int)> {
    Set::new(|p: (int, int)| 0 <= p.0 < m.width && 0 <= p.1 < rows && winner(m, p.0, p.1) is Some)
}

/// The pixels of the first `rows` rows.
pub open spec fn grid_set(width: int, rows: int) -> Set<(int, int)> {
    Set::new(|p: (int, int)| 0 <= p.0 < width && 0 <= p.1 < rows)
}

pub open spec fn grid_row_set(ny: int, cols: int) -> Set<(int, int)> {
    Set::new(|p: (int, int)| 0 <= p.0 < cols && p.1 == ny)
}

proof fn lemma_row_sets(m: &Machine, ny: int, cols: nat)
    ensures
        moved_row_set(m, ny, cols as int).finite(),
        moved_row_set(m, ny, cols as int).len() == moved_in_row(m, ny, cols),
        grid_row_set(ny, cols as int).finite(),
        grid_row_set(ny, cols as int).len() == cols,
    decreases cols,
{
    broadcast use vstd::set::group_set_axioms;

    if cols == 0 {
        assert(moved_row_set(m, ny, 0) =~= Set::empty());
        assert(grid_row_set(ny, 0) =~= Set::empty());
    } else {
        let c = cols - 1;
        lemma_row_sets(m, ny, c as nat);
        assert(grid_row_set(ny, cols as int) =~= grid_row_set(ny, c).insert((c, ny)));
        if winner(m, c, ny) is Some {
            assert(moved_row_set(m, ny, cols as int) =~= moved_row_set(m, ny, c).insert((c, ny)));
        } else {
            assert(moved_row_set(m, ny, cols as int) =~= moved_row_set(m, ny, c));
        }
    }
}

proof fn lemma_grid_sets(m: &Machine, rows: nat)
    ensures
        moved_set(m, rows as int).finite(),
        moved_set(m, rows as int).len() == moved_count(m, rows),
        grid_set(m.width as int, rows as int).finite(),
        grid_set(m.width as int, rows as int).len() == rows * m.width,
    decreases rows,
{
    broadcast use vstd::set::group_set_axioms;
    broadcast use vstd::set_lib::lemma_set_disjoint_lens;

    let w = m.width as int;
    if rows == 0 {
        assert(moved_set(m, 0) =~= Set::empty());
        assert(grid_set(w, 0) =~= Set::empty());
    } else {
        let r = rows - 1;
        lemma_grid_sets(m, r as nat);
        lemma_row_sets(m, r, m.width as nat);
        assert(moved_set(m, rows as int) =~= moved_set(m, r) + moved_row_set(m, r, w));
        assert(grid_set(w, rows as int) =~= grid_set(w, r) + grid_row_set(r, w));
        assert(moved_set(m, r).disjoint(moved_row_set(m, r, w)));
        assert(grid_set(w, r).disjoint(grid_row_set(r, w)));
        assert(r * w + w == rows * w) by (nonlinear_arith)
            requires r == rows - 1;
    }
}

/// Migration completeness: where an old pixel's origin falls outside the
/// new area, fewer than all positions receive a moved pixel, so at least
/// one pixel is created.
pub proof fn lemma_some_created(m: &Machine, x0: int, y0: int)
    requires
        m.wf(),
        cell(m, (x0, y0)),
        target(m, x0, y0) is None,
    ensures
        moved_count(m, m.height as nat) < m.width * m.height,
{
    broadcast use vstd::set::group_set_axioms;

    let w = m.width as int;
    let h = m.height as int;
    lemma_grid_sets(m, m.height as nat);
    let moved = moved_set(m, h);
    let grid = grid_set(w, h);
    let f = |p: (int, int)| winner(m, p.0, p.1)->Some_0;
    let targeted = Set::new(|c: (int, int)| cell(m, c) && target(m, c.0, c.1) is Some);
    assert forall|p: (int, int)| moved.contains(p) implies is_winner(m, p.0, p.1, #[trigger] f(p)) by {
        let c = choose|c: (int, int)| is_winner(m, p.0, p.1, c);
    }
    assert(vstd::relations::injective_on(f, moved)) by {
        assert forall|p: (int, int), q: (int, int)|
            moved.contains(p) && moved.contains(q) && #[trigger] f(p) == #[trigger] f(q) implies p == q by {
            assert(is_winner(m, p.0, p.1, f(p)));
            assert(is_winner(m, q.0, q.1, f(q)));
        }
    }
    let image = moved.map(f);
    vstd::set_lib::lemma_map_size(moved, image, f);
    assert(image.subset_of(grid.remove((x0, y0)))) by {
        assert forall|c: (int, int)| image.contains(c) implies grid.remove((x0, y0)).contains(c) by {
            let p = choose|p: (int, int)| moved.contains(p) && f(p) == c;
            assert(is_winner(m, p.0, p.1, c));
        }
    }
    vstd::set_lib::lemma_len_subset(image, grid.remove((x0, y0)));
    assert(h * w == w * h) by (nonlinear_arith);
}

} // verus!
