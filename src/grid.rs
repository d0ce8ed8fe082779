use vstd::arithmetic::div_mod::{lemma_fundamental_div_mod, lemma_fundamental_div_mod_converse};
use vstd::prelude::*;

verus! {

/// A grid coordinate, written `(x, y)`: column first, then row.
pub type Point = (usize, usize);

/// A square grid of `n` by `n` values.
#[derive(Clone, PartialEq)]
pub struct Grid<T: Clone + Copy + PartialEq> {
    pub n: usize,
    pub grid: Vec<Vec<T>>,
}

/// Chebyshev distance of an offset from the origin.
pub open spec fn chebyshev(dx: int, dy: int) -> int {
    let ax = if dx < 0 { -dx } else { dx };
    let ay = if dy < 0 { -dy } else { dy };
    if ax < ay { ay } else { ax }
}

/// The point at offset `(a - r, b - r)` from `(x, y)`, wrapped modulo `size`
/// when `wrapping` holds.
pub open spec fn ring_point(size: int, x: int, y: int, r: int, wrapping: bool, a: int, b: int) -> Point {
    if wrapping {
        (((x + a - r) % size) as usize, ((y + b - r) % size) as usize)
    } else {
        ((x + a - r) as usize, (y + b - r) as usize)
    }
}

/// Whether the offset `(a - r, b - r)` lies on the ring of radius `r` and,
/// without wrapping, lands on the grid.
pub open spec fn ring_keep(size: int, x: int, y: int, r: int, wrapping: bool, a: int, b: int) -> bool {
    chebyshev(a - r, b - r) == r && (wrapping || (0 <= x + a - r < size && 0 <= y + b - r < size))
}

/// The ring points of column band `a`, for row offsets below `k`.
pub open spec fn ring_column(size: int, x: int, y: int, r: int, wrapping: bool, a: int, k: int) -> Seq<Point>
    decreases k,
{
    if k <= 0 {
        Seq::empty()
    } else {
        let s = ring_column(size, x, y, r, wrapping, a, k - 1);
        if ring_keep(size, x, y, r, wrapping, a, k - 1) {
            s.push(ring_point(size, x, y, r, wrapping, a, k - 1))
        } else {
            s
        }
    }
}

/// The ring points of the column bands below `k`, band by band.
pub open spec fn ring_columns(size: int, x: int, y: int, r: int, wrapping: bool, k: int) -> Seq<Point>
    decreases k,
{
    if k <= 0 {
        Seq::empty()
    } else {
        ring_columns(size, x, y, r, wrapping, k - 1) + ring_column(size, x, y, r, wrapping, k - 1, 2 * r + 1)
    }
}

/// The points at Chebyshev distance exactly `r` from `(x, y)`, in band order.
pub open spec fn ring(size: int, x: int, y: int, r: int, wrapping: bool) -> Seq<Point> {
    ring_columns(size, x, y, r, wrapping, 2 * r + 1)
}

/// The points of a column band are those of its kept row offsets.
proof fn lemma_ring_column_members(size: int, x: int, y: int, r: int, wrapping: bool, a: int, k: int, p: Point)
    requires
        k >= 0,
    ensures
        ring_column(size, x, y, r, wrapping, a, k).contains(p) <==> exists|b: int|
            0 <= b < k && ring_keep(size, x, y, r, wrapping, a, b) && #[trigger] ring_point(size, x, y, r, wrapping, a, b)
                == p,
    decreases k,
{
    if k > 0 {
        lemma_ring_column_members(size, x, y, r, wrapping, a, k - 1, p);
        let s = ring_column(size, x, y, r, wrapping, a, k - 1);
        let e = ring_point(size, x, y, r, wrapping, a, k - 1);
        if ring_keep(size, x, y, r, wrapping, a, k - 1) {
            assert(s.push(e).contains(p) <==> s.contains(p) || e == p) by {
                if s.push(e).contains(p) {
                    let i = choose|i: int| 0 <= i < s.push(e).len() && s.push(e)[i] == p;
                    if i < s.len() {
                        assert(s[i] == p);
                    }
                }
                if s.contains(p) {
                    let i = choose|i: int| 0 <= i < s.len() && s[i] == p;
                    assert(s.push(e)[i] == p);
                }
                if e == p {
                    assert(s.push(e)[s.len() as int] == p);
                }
            }
        }
    }
}

/// The points of the first `k` column bands are those of their kept offsets.
proof fn lemma_ring_columns_members(size: int, x: int, y: int, r: int, wrapping: bool, k: int, p: Point)
    requires
        k >= 0,
        r >= 0,
    ensures
        ring_columns(size, x, y, r, wrapping, k).contains(p) <==> exists|a: int, b: int|
            0 <= a < k && 0 <= b < 2 * r + 1 && ring_keep(size, x, y, r, wrapping, a, b) && #[trigger] ring_point(
                size,
                x,
                y,
                r,
                wrapping,
                a,
                b,
            ) == p,
    decreases k,
{
    if k > 0 {
        lemma_ring_columns_members(size, x, y, r, wrapping, k - 1, p);
        lemma_ring_column_members(size, x, y, r, wrapping, k - 1, 2 * r + 1, p);
        let s = ring_columns(size, x, y, r, wrapping, k - 1);
        let t = ring_column(size, x, y, r, wrapping, k - 1, 2 * r + 1);
        assert((s + t).contains(p) <==> s.contains(p) || t.contains(p)) by {
            if (s + t).contains(p) {
                let i = choose|i: int| 0 <= i < (s + t).len() && (s + t)[i] == p;
                if i < s.len() {
                    assert(s[i] == p);
                } else {
                    assert(t[i - s.len()] == p);
                }
            }
            if s.contains(p) {
                let i = choose|i: int| 0 <= i < s.len() && s[i] == p;
                assert((s + t)[i] == p);
            }
            if t.contains(p) {
                let i = choose|i: int| 0 <= i < t.len() && t[i] == p;
                assert((s + t)[s.len() + i] == p);
            }
        }
        if ring_columns(size, x, y, r, wrapping, k).contains(p) {
            if t.contains(p) {
                let b = choose|b: int|
                    0 <= b < 2 * r + 1 && ring_keep(size, x, y, r, wrapping, k - 1, b) && #[trigger] ring_point(
                        size,
                        x,
                        y,
                        r,
                        wrapping,
                        k - 1,
                        b,
                    ) == p;
                assert(ring_point(size, x, y, r, wrapping, k - 1, b) == p);
            }
        }
        if exists|a: int, b: int|
            0 <= a < k && 0 <= b < 2 * r + 1 && ring_keep(size, x, y, r, wrapping, a, b) && #[trigger] ring_point(
                size,
                x,
                y,
                r,
                wrapping,
                a,
                b,
            ) == p {
            let (a, b) = choose|a: int, b: int|
                0 <= a < k && 0 <= b < 2 * r + 1 && ring_keep(size, x, y, r, wrapping, a, b) && #[trigger] ring_point(
                    size,
                    x,
                    y,
                    r,
                    wrapping,
                    a,
                    b,
                ) == p;
            if a == k - 1 {
                assert(t.contains(p));
            } else {
                assert(s.contains(p));
            }
        }
    }
}

/// Without wrapping, the ring holds exactly the grid points at Chebyshev
/// distance `r` from the center.
pub proof fn lemma_ring_members(size: int, x: int, y: int, r: int, p: Point)
    requires
        size <= usize::MAX,
        0 <= x < size,
        0 <= y < size,
        r >= 0,
    ensures
        ring(size, x, y, r, false).contains(p) <==> 0 <= p.0 < size && 0 <= p.1 < size && chebyshev(
            p.0 - x,
            p.1 - y,
        ) == r,
{
    lemma_ring_columns_members(size, x, y, r, false, 2 * r + 1, p);
    if 0 <= p.0 < size && 0 <= p.1 < size && chebyshev(p.0 - x, p.1 - y) == r {
        let a = p.0 - x + r;
        let b = p.1 - y + r;
        assert(ring_keep(size, x, y, r, false, a, b) && ring_point(size, x, y, r, false, a, b) == p);
    }
    if ring(size, x, y, r, false).contains(p) {
        let (a, b) = choose|a: int, b: int|
            0 <= a < 2 * r + 1 && 0 <= b < 2 * r + 1 && ring_keep(size, x, y, r, false, a, b) && #[trigger] ring_point(
                size,
                x,
                y,
                r,
                false,
                a,
                b,
            ) == p;
        assert(p.0 == x + a - r && p.1 == y + b - r);
    }
}

/// With wrapping, the ring holds exactly the points that an offset at
/// Chebyshev distance `r` reaches, modulo the grid size.
pub proof fn lemma_wrapped_ring_members(size: int, x: int, y: int, r: int, p: Point)
    requires
        0 <= x < size,
        0 <= y < size,
        r >= 0,
    ensures
        ring(size, x, y, r, true).contains(p) <==> exists|dx: int, dy: int|
            chebyshev(dx, dy) == r && p == (#[trigger] ((x + dx) % size) as usize, #[trigger] ((y + dy) % size) as usize),
{
    lemma_ring_columns_members(size, x, y, r, true, 2 * r + 1, p);
    if exists|dx: int, dy: int|
        chebyshev(dx, dy) == r && p == (#[trigger] ((x + dx) % size) as usize, #[trigger] ((y + dy) % size) as usize) {
        let (dx, dy) = choose|dx: int, dy: int|
            chebyshev(dx, dy) == r && p == (#[trigger] ((x + dx) % size) as usize, #[trigger] ((y + dy) % size) as usize);
        assert(ring_keep(size, x, y, r, true, dx + r, dy + r) && ring_point(size, x, y, r, true, dx + r, dy + r) == p);
    }
    if ring(size, x, y, r, true).contains(p) {
        let (a, b) = choose|a: int, b: int|
            0 <= a < 2 * r + 1 && 0 <= b < 2 * r + 1 && ring_keep(size, x, y, r, true, a, b) && #[trigger] ring_point(
                size,
                x,
                y,
                r,
                true,
                a,
                b,
            ) == p;
        assert(chebyshev(a - r, b - r) == r && p == (((x + (a - r)) % size) as usize, ((y + (b - r)) % size) as usize));
    }
}

/// With wrapping, a column band holds every row offset on an edge band and
/// the two edge row offsets elsewhere.
proof fn lemma_wrapped_column_len(size: int, x: int, y: int, r: int, a: int, k: int)
    requires
        r > 0,
        0 <= a <= 2 * r,
        0 <= k <= 2 * r + 1,
    ensures
        ring_column(size, x, y, r, true, a, k).len() == if a == 0 || a == 2 * r {
            k
        } else {
            (if k > 0 { 1int } else { 0int }) + (if k > 2 * r { 1int } else { 0int })
        },
    decreases k,
{
    if k > 0 {
        lemma_wrapped_column_len(size, x, y, r, a, k - 1);
        assert(ring_keep(size, x, y, r, true, a, k - 1) <==> (a == 0 || a == 2 * r || k - 1 == 0 || k - 1 == 2 * r));
    }
}

/// With wrapping, the first `k` column bands hold `2r + 1` points for each
/// edge band and two for each band between.
proof fn lemma_wrapped_columns_len(size: int, x: int, y: int, r: int, k: int)
    requires
        r > 0,
        0 <= k <= 2 * r + 1,
    ensures
        ring_columns(size, x, y, r, true, k).len() == if k == 0 {
            0
        } else if k <= 2 * r {
            2 * r + 1 + 2 * (k - 1)
        } else {
            8 * r
        },
    decreases k,
{
    if k > 0 {
        lemma_wrapped_columns_len(size, x, y, r, k - 1);
        lemma_wrapped_column_len(size, x, y, r, k - 1, 2 * r + 1);
    }
}

/// With wrapping, the ring has its full count wherever its center lies:
/// `8r` points, and the center alone when `r` is zero.
pub proof fn lemma_wrapped_ring_len(size: int, x: int, y: int, r: int)
    requires
        r >= 0,
    ensures
        ring(size, x, y, r, true).len() == if r == 0 { 1 } else { 8 * r },
{
    if r == 0 {
        reveal_with_fuel(ring_column, 2);
        reveal_with_fuel(ring_columns, 2);
        assert(ring_keep(size, x, y, 0, true, 0, 0));
        assert(ring_column(size, x, y, 0, true, 0, 0).len() == 0);
        assert(ring_columns(size, x, y, 0, true, 0).len() == 0);
    } else {
        lemma_wrapped_columns_len(size, x, y, r, 2 * r + 1);
    }
}

/// Two integers less than `m` apart with the same remainder are equal.
proof fn lemma_mod_close(u: int, v: int, m: int)
    requires
        m > 0,
        u % m == v % m,
        -m < u - v < m,
    ensures
        u == v,
{
    lemma_fundamental_div_mod(u, m);
    lemma_fundamental_div_mod(v, m);
    let qu = u / m;
    let qv = v / m;
    assert(u - v == m * (qu - qv)) by (nonlinear_arith)
        requires
            u == m * qu + u % m,
            v == m * qv + v % m,
            u % m == v % m,
    ;
    if qu - qv >= 1 {
        assert(m * (qu - qv) >= m) by (nonlinear_arith)
            requires
                m > 0,
                qu - qv >= 1,
        ;
    } else if qu - qv <= -1 {
        assert(m * (qu - qv) <= -m) by (nonlinear_arith)
            requires
                m > 0,
                qu - qv <= -1,
        ;
    }
}

/// Distinct kept offsets give distinct points when the grid is wider than
/// the ring.
proof fn lemma_ring_point_injective(size: int, x: int, y: int, r: int, wrapping: bool, a: int, b: int, c: int, d: int)
    requires
        0 <= x < size,
        0 <= y < size,
        size <= usize::MAX,
        2 * r < size,
        0 <= a <= 2 * r,
        0 <= b <= 2 * r,
        0 <= c <= 2 * r,
        0 <= d <= 2 * r,
        ring_keep(size, x, y, r, wrapping, a, b),
        ring_keep(size, x, y, r, wrapping, c, d),
        ring_point(size, x, y, r, wrapping, a, b) == ring_point(size, x, y, r, wrapping, c, d),
    ensures
        a == c && b == d,
{
    if wrapping {
        lemma_fundamental_div_mod(x + a - r, size);
        lemma_fundamental_div_mod(x + c - r, size);
        lemma_fundamental_div_mod(y + b - r, size);
        lemma_fundamental_div_mod(y + d - r, size);
        vstd::arithmetic::div_mod::lemma_mod_bound(x + a - r, size);
        vstd::arithmetic::div_mod::lemma_mod_bound(x + c - r, size);
        vstd::arithmetic::div_mod::lemma_mod_bound(y + b - r, size);
        vstd::arithmetic::div_mod::lemma_mod_bound(y + d - r, size);
        lemma_mod_close(x + a - r, x + c - r, size);
        lemma_mod_close(y + b - r, y + d - r, size);
    }
}

/// The points of column band `a` below row offset `k` have no duplicates
/// and all come from row offsets below `k`.
proof fn lemma_ring_column_distinct(size: int, x: int, y: int, r: int, wrapping: bool, a: int, k: int)
    requires
        0 <= x < size,
        0 <= y < size,
        size <= usize::MAX,
        2 * r < size,
        0 <= a <= 2 * r,
        0 <= k <= 2 * r + 1,
    ensures
        ring_column(size, x, y, r, wrapping, a, k).no_duplicates(),
    decreases k,
{
    if k > 0 {
        lemma_ring_column_distinct(size, x, y, r, wrapping, a, k - 1);
        let s = ring_column(size, x, y, r, wrapping, a, k - 1);
        let e = ring_point(size, x, y, r, wrapping, a, k - 1);
        if ring_keep(size, x, y, r, wrapping, a, k - 1) {
            lemma_ring_column_members(size, x, y, r, wrapping, a, k - 1, e);
            if s.contains(e) {
                let b = choose|b: int|
                    0 <= b < k - 1 && ring_keep(size, x, y, r, wrapping, a, b) && #[trigger] ring_point(
                        size,
                        x,
                        y,
                        r,
                        wrapping,
                        a,
                        b,
                    ) == e;
                lemma_ring_point_injective(size, x, y, r, wrapping, a, b, a, k - 1);
            }
            assert forall|i: int, j: int| 0 <= i < s.push(e).len() && 0 <= j < s.push(e).len() && i != j implies s.push(
                e,
            )[i] != s.push(e)[j] by {
                if i < s.len() && j < s.len() {
                } else if i < s.len() {
                    assert(s.contains(s[i]));
                } else if j < s.len() {
                    assert(s.contains(s[j]));
                }
            }
        }
    }
}

/// The first `k` column bands hold no duplicate point.
proof fn lemma_ring_columns_distinct(size: int, x: int, y: int, r: int, wrapping: bool, k: int)
    requires
        0 <= x < size,
        0 <= y < size,
        size <= usize::MAX,
        2 * r < size,
        r >= 0,
        0 <= k <= 2 * r + 1,
    ensures
        ring_columns(size, x, y, r, wrapping, k).no_duplicates(),
    decreases k,
{
    if k > 0 {
        lemma_ring_columns_distinct(size, x, y, r, wrapping, k - 1);
        lemma_ring_column_distinct(size, x, y, r, wrapping, k - 1, 2 * r + 1);
        let s = ring_columns(size, x, y, r, wrapping, k - 1);
        let t = ring_column(size, x, y, r, wrapping, k - 1, 2 * r + 1);
        assert forall|i: int, j: int| 0 <= i < s.len() && 0 <= j < t.len() implies s[i] != t[j] by {
            let p = s[i];
            lemma_ring_columns_members(size, x, y, r, wrapping, k - 1, p);
            lemma_ring_column_members(size, x, y, r, wrapping, k - 1, 2 * r + 1, p);
            assert(s.contains(p));
            if t[j] == p {
                assert(t.contains(p));
                let (a, b) = choose|a: int, b: int|
                    0 <= a < k - 1 && 0 <= b < 2 * r + 1 && ring_keep(size, x, y, r, wrapping, a, b) && #[trigger] ring_point(
                        size,
                        x,
                        y,
                        r,
                        wrapping,
                        a,
                        b,
                    ) == p;
                let d = choose|d: int|
                    0 <= d < 2 * r + 1 && ring_keep(size, x, y, r, wrapping, k - 1, d) && #[trigger] ring_point(
                        size,
                        x,
                        y,
                        r,
                        wrapping,
                        k - 1,
                        d,
                    ) == p;
                lemma_ring_point_injective(size, x, y, r, wrapping, a, b, k - 1, d);
            }
        }
        assert forall|i: int, j: int| 0 <= i < (s + t).len() && 0 <= j < (s + t).len() && i != j implies (s + t)[i]
            != (s + t)[j] by {
            if i < s.len() && j >= s.len() {
                assert((s + t)[j] == t[j - s.len()]);
            } else if j < s.len() && i >= s.len() {
                assert((s + t)[i] == t[i - s.len()]);
            } else if i >= s.len() && j >= s.len() {
                assert((s + t)[i] == t[i - s.len()]);
                assert((s + t)[j] == t[j - s.len()]);
            }
        }
    }
}

/// On a grid wider than the ring, the ring lists no point twice, with or
/// without wrapping.
pub proof fn lemma_ring_distinct(size: int, x: int, y: int, r: int, wrapping: bool)
    requires
        0 <= x < size,
        0 <= y < size,
        size <= usize::MAX,
        r >= 0,
        2 * r < size,
    ensures
        ring(size, x, y, r, wrapping).no_duplicates(),
{
    lemma_ring_columns_distinct(size, x, y, r, wrapping, 2 * r + 1);
}

/// `(x + a - r) mod size`, computed without overflow.
fn wrap_coord(size: usize, x: usize, r: usize, a: usize) -> (res: usize)
    requires
        size > 0,
        x < size,
    ensures
        res as int == (x + a - r) % (size as int),
{
    let rm = r % size;
    let am = a % size;
    proof {
        lemma_fundamental_div_mod(r as int, size as int);
        lemma_fundamental_div_mod(a as int, size as int);
    }
    let base = if x >= rm { x - rm } else { x + (size - rm) };
    let res = if base >= size - am { base - (size - am) } else { base + am };
    proof {
        let s = size as int;
        let qr = r as int / s;
        let qa = a as int / s;
        let qb: int = if x >= rm { -qr } else { -qr - 1 };
        let qs: int = if base >= size - am { qb + qa + 1 } else { qb + qa };
        assert(x as int - r as int == base as int + qb * s) by (nonlinear_arith)
            requires
                r as int == s * qr + rm as int,
                qb == (if x >= rm { -qr } else { -qr - 1 }),
                base as int == (if x >= rm { x - rm } else { x + (s - rm) }),
        ;
        assert(x + a - r == qs * s + res as int) by (nonlinear_arith)
            requires
                x as int - r as int == base as int + qb * s,
                a as int == s * qa + am as int,
                qs == (if base >= size - am { qb + qa + 1 } else { qb + qa }),
                res as int == (if base >= size - am { base - (s - am) } else { base + am }),
        ;
        lemma_fundamental_div_mod_converse(x + a - r, s, qs, res as int);
    }
    res
}

/// `x + a - r` when it lies in `[0, size)`.
fn shifted_coord(size: usize, x: usize, r: usize, a: usize) -> (res: Option<usize>)
    requires
        x < size,
    ensures
        res.is_some() <==> 0 <= x + a - r < size,
        res.is_some() ==> res.unwrap() == x + a - r,
{
    if a >= r {
        let d = a - r;
        if d < size - x {
            Some(x + d)
        } else {
            None
        }
    } else {
        let d = r - a;
        if d <= x {
            Some(x - d)
        } else {
            None
        }
    }
}

impl<T: Clone + Copy + PartialEq> Grid<T> {
    /// Appends to `buf` the points at Chebyshev distance exactly `n` from
    /// `point`, column band by column band. With `wrapping` the coordinates
    /// wrap modulo the grid size; without it, points off the grid are left out.
    pub fn square(&mut self, point: Point, buf: &mut Vec<Point>, n: usize, wrapping: bool)
        requires
            old(self).n > 0,
            point.0 < old(self).n,
            point.1 < old(self).n,
            n < usize::MAX / 2,
        ensures
            *final(self) == *old(self),
            final(buf)@ == old(buf)@ + ring(old(self).n as int, point.0 as int, point.1 as int, n as int, wrapping),
    {
        let (x, y) = point;
        let size = self.n;
        let last = 2 * n;
        let ghost sz = size as int;
        let mut a: usize = 0;
        while a <= last
            invariant
                *self == *old(self),
                size == self.n,
                sz == size as int,
                size > 0,
                x < size,
                y < size,
                last == 2 * n,
                n < usize::MAX / 2,
                a <= last + 1,
                buf@ == old(buf)@ + ring_columns(sz, x as int, y as int, n as int, wrapping, a as int),
            decreases last + 1 - a,
        {
            let mut b: usize = 0;
            while b <= last
                invariant
                    *self == *old(self),
                    size == self.n,
                    sz == size as int,
                    size > 0,
                    x < size,
                    y < size,
                    last == 2 * n,
                    n < usize::MAX / 2,
                    a <= last,
                    b <= last + 1,
                    buf@ == old(buf)@ + ring_columns(sz, x as int, y as int, n as int, wrapping, a as int)
                        + ring_column(sz, x as int, y as int, n as int, wrapping, a as int, b as int),
                decreases last + 1 - b,
            {
                let ghost before = buf@;
                assert(chebyshev(a - n, b - n) == n <==> (a == 0 || a == last || b == 0 || b == last));
                if a == 0 || a == last || b == 0 || b == last {
                    if wrapping {
                        let px = wrap_coord(size, x, n, a);
                        let py = wrap_coord(size, y, n, b);
                        buf.push((px, py));
                    } else {
                        let px = shifted_coord(size, x, n, a);
                        let py = shifted_coord(size, y, n, b);
                        if px.is_some() && py.is_some() {
                            buf.push((px.unwrap(), py.unwrap()));
                        }
                    }
                }
                proof {
                    let pre = old(buf)@ + ring_columns(sz, x as int, y as int, n as int, wrapping, a as int);
                    let col = ring_column(sz, x as int, y as int, n as int, wrapping, a as int, b as int);
                    assert(ring_column(sz, x as int, y as int, n as int, wrapping, a as int, b + 1) ==
                        if ring_keep(sz, x as int, y as int, n as int, wrapping, a as int, b as int) {
                            col.push(ring_point(sz, x as int, y as int, n as int, wrapping, a as int, b as int))
                        } else {
                            col
                        });
                    if ring_keep(sz, x as int, y as int, n as int, wrapping, a as int, b as int) {
                        assert(buf@ == before.push(ring_point(sz, x as int, y as int, n as int, wrapping, a as int, b as int)));
                        assert((pre + col).push(ring_point(sz, x as int, y as int, n as int, wrapping, a as int, b as int))
                            =~= pre + col.push(ring_point(sz, x as int, y as int, n as int, wrapping, a as int, b as int)));
                    } else {
                        assert(buf@ == before);
                    }
                }
                b += 1;
            }
            proof {
                assert(old(buf)@ + ring_columns(sz, x as int, y as int, n as int, wrapping, a as int)
                    + ring_column(sz, x as int, y as int, n as int, wrapping, a as int, 2 * n + 1)
                    =~= old(buf)@ + ring_columns(sz, x as int, y as int, n as int, wrapping, a + 1));
            }
            a += 1;
        }
    }
}

} // verus!
