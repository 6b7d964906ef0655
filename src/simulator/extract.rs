use vstd::prelude::*;
use vstd::slice::slice_subrange;

use super::conductive::{pixel_conductive, Conductive};
use super::not_gate::NotGate;
use super::wire::Wire;
use super::union_find::{lemma_find_idempotent, DisjointSets, UnionFind};

verus! {

/// A raster image: `width * height` pixels in row-major order, each made of
/// `components` channel values, the last of which is alpha.
pub struct PixelBuffer {
    pub width: u32,
    pub height: u32,
    pub components: u32,
    pub data: Vec<u8>,
}

impl PixelBuffer {
    /// The buffer is rectangular, every pixel has a colour channel and alpha,
    /// and every pixel index fits a wire id.
    pub open spec fn wf(&self) -> bool {
        &&& self.components >= 2
        &&& self.data@.len() == self.width * self.height * self.components
        &&& self.width * self.height < i32::MAX
    }

    pub open spec fn num_pixels(&self) -> int {
        self.width * self.height
    }

    /// The channel values of the pixel with row-major index `k`.
    pub open spec fn pixel_at(&self, k: int) -> Seq<u8> {
        self.data@.subrange(k * self.components, k * self.components + self.components)
    }

    pub open spec fn cond_at(&self, k: int) -> bool {
        pixel_conductive(self.pixel_at(k))
    }

    /// The two buffers hold the same image.
    pub open spec fn same_pixels(&self, other: PixelBuffer) -> bool {
        &&& self.width == other.width
        &&& self.height == other.height
        &&& self.components == other.components
        &&& self.data@ == other.data@
    }

    /// A copy of the buffer.
    pub fn duplicate(&self) -> (r: Self)
        ensures
            r.same_pixels(*self),
    {
        let data = self.data.clone();
        proof {
            assert(data@ =~= self.data@);
        }
        PixelBuffer { width: self.width, height: self.height, components: self.components, data }
    }

    /// Pixel `(x, y)` is part of a conductor.
    pub open spec fn cond(&self, x: int, y: int) -> bool {
        self.cond_at(y * self.width + x)
    }
}

/// Pixel `k` opens a new horizontal run: it conducts and is the first pixel
/// or the pixel scanned just before it does not conduct. The scan runs on
/// from the end of one row into the next, so a run ending a row continues
/// into a run starting the next row.
pub open spec fn run_start(img: PixelBuffer, k: int) -> bool {
    img.cond_at(k) && (k == 0 || !img.cond_at(k - 1))
}

/// How many runs open among the first `n` pixels.
pub open spec fn starts_before(img: PixelBuffer, n: int) -> int
    decreases n,
{
    if n <= 0 {
        0
    } else {
        starts_before(img, n - 1) + if run_start(img, n - 1) {
            1int
        } else {
            0int
        }
    }
}

/// The id that the row scan gives pixel `k`: its run's number counted from 0,
/// or -1 for a pixel that does not conduct.
pub open spec fn provisional_id(img: PixelBuffer, k: int) -> int {
    if img.cond_at(k) {
        starts_before(img, k + 1) - 1
    } else {
        -1
    }
}

pub proof fn lemma_starts_bounded(img: PixelBuffer, n: int)
    requires
        n >= 0,
    ensures
        0 <= starts_before(img, n) <= n,
    decreases n,
{
    if n > 0 {
        lemma_starts_bounded(img, n - 1);
    }
}

pub proof fn lemma_starts_monotonic(img: PixelBuffer, m: int, n: int)
    requires
        0 <= m <= n,
    ensures
        starts_before(img, m) <= starts_before(img, n),
    decreases n - m,
{
    if m < n {
        lemma_starts_monotonic(img, m, n - 1);
    }
}

/// A conductive pixel lies in a run opened at or before it.
pub proof fn lemma_conductive_in_run(img: PixelBuffer, k: int)
    requires
        k >= 0,
        img.cond_at(k),
    ensures
        starts_before(img, k + 1) >= 1,
    decreases k,
{
    lemma_starts_bounded(img, k);
    assert(starts_before(img, k + 1) == starts_before(img, k) + if run_start(img, k) {
        1int
    } else {
        0int
    });
    if !run_start(img, k) {
        lemma_conductive_in_run(img, k - 1);
    }
}

/// Every run number below the count of runs opened among the first `n`
/// pixels is held by one of those pixels.
pub proof fn lemma_run_ids_held(img: PixelBuffer, n: int, v: int)
    requires
        n >= 0,
        0 <= v < starts_before(img, n),
    ensures
        exists|k: int| 0 <= k < n && img.cond_at(k) && #[trigger] provisional_id(img, k) == v,
    decreases n,
{
    if v < starts_before(img, n - 1) {
        lemma_run_ids_held(img, n - 1, v);
        let k = choose|k: int| 0 <= k < n - 1 && img.cond_at(k) && #[trigger] provisional_id(img, k) == v;
        assert(0 <= k < n && img.cond_at(k) && provisional_id(img, k) == v);
    } else {
        assert(run_start(img, n - 1));
        assert(provisional_id(img, n - 1) == v);
    }
}

/// Two conductive pixels with a non-conductive one scanned between them lie in
/// different runs: the later one gets a larger id.
pub proof fn lemma_separated_runs_differ(img: PixelBuffer, k1: int, gap: int, k2: int)
    requires
        0 <= k1 < gap < k2,
        img.cond_at(k1),
        !img.cond_at(gap),
        img.cond_at(k2),
    ensures
        provisional_id(img, k1) < provisional_id(img, k2),
    decreases k2 - gap,
{
    if img.cond_at(k2 - 1) {
        lemma_separated_runs_differ(img, k1, gap, k2 - 1);
    } else {
        lemma_starts_monotonic(img, k1 + 1, k2);
    }
}

/// All pixels of an unbroken conductive stretch share one id.
pub proof fn lemma_unbroken_run_same(img: PixelBuffer, k1: int, k2: int)
    requires
        0 <= k1 <= k2,
        forall|k: int| k1 <= k <= k2 ==> #[trigger] img.cond_at(k),
    ensures
        provisional_id(img, k1) == provisional_id(img, k2),
    decreases k2 - k1,
{
    if k1 < k2 {
        lemma_unbroken_run_same(img, k1, k2 - 1);
        assert(img.cond_at(k2 - 1));
    }
}

/// Labels each conductive pixel with the number of its horizontal run, in
/// row-major order, counting from 0; returns the per-pixel map and the largest
/// id issued (-1 when no pixel conducts).
pub fn label_runs(img: &PixelBuffer) -> (r: (Vec<Vec<i32>>, i32))
    requires
        img.wf(),
    ensures
        r.0@.len() == img.height,
        forall|y: int| 0 <= y < img.height ==> (#[trigger] r.0@[y])@.len() == img.width,
        forall|y: int, x: int|
            0 <= y < img.height && 0 <= x < img.width ==> #[trigger] r.0@[y]@[x]
                == provisional_id(*img, y * img.width + x),
        r.1 == starts_before(*img, img.num_pixels()) - 1,
        -1 <= r.1 < i32::MAX,
{
    let w = img.width as usize;
    let h = img.height as usize;
    let c = img.components as usize;
    let ghost n = img.num_pixels();
    assert(n * c == img.data@.len()) by (nonlinear_arith)
        requires
            n == w * h,
            img.data@.len() == img.width * img.height * img.components,
            w == img.width,
            h == img.height,
            c == img.components,
    ;
    let data_len = img.data.len();
    let mut map: Vec<Vec<i32>> = Vec::new();
    let mut last_id: i32 = -1;
    let mut prev_is_conductive = false;
    let mut k: usize = 0;
    let mut y: usize = 0;
    while y < h
        invariant
            img.wf(),
            w == img.width,
            h == img.height,
            c == img.components,
            n == w * h,
            n * c == img.data@.len(),
            n < i32::MAX,
            data_len == img.data@.len(),
            y <= h,
            k == y * w,
            map@.len() == y,
            last_id == starts_before(*img, k as int) - 1,
            prev_is_conductive == (k > 0 && img.cond_at(k - 1)),
            forall|yy: int| 0 <= yy < y ==> (#[trigger] map@[yy])@.len() == w,
            forall|yy: int, x: int|
                0 <= yy < y && 0 <= x < w ==> #[trigger] map@[yy]@[x] == provisional_id(
                    *img,
                    yy * w + x,
                ),
        decreases h - y,
    {
        assert((y + 1) * w == y * w + w) by (nonlinear_arith);
        assert((y + 1) * w <= n) by (nonlinear_arith)
            requires
                y + 1 <= h,
                n == w * h,
        ;
        let mut row: Vec<i32> = Vec::new();
        let mut x: usize = 0;
        while x < w
            invariant
                img.wf(),
                w == img.width,
                c == img.components,
                n == w * h,
                (y + 1) * w <= n,
                (y + 1) * w == y * w + w,
                n * c == img.data@.len(),
                data_len == img.data@.len(),
                n < i32::MAX,
                x <= w,
                k == y * w + x,
                row@.len() == x,
                last_id == starts_before(*img, k as int) - 1,
                prev_is_conductive == (k > 0 && img.cond_at(k - 1)),
                forall|xx: int| 0 <= xx < x ==> row@[xx] == provisional_id(*img, y * w + xx),
            decreases w - x,
        {
            proof {
                lemma_starts_bounded(*img, k as int);
                assert((k + 1) * c <= n * c) by (nonlinear_arith)
                    requires
                        k + 1 <= n,
                        c >= 0,
                ;
                assert((k + 1) * c == k * c + c) by (nonlinear_arith);
                assert(k * c >= 0) by (nonlinear_arith)
                    requires
                        k >= 0,
                        c >= 0,
                ;
            }
            let start = k * c;
            let pixel = slice_subrange(img.data.as_slice(), start, start + c);
            let cur_is_conductive = pixel.is_conductive();
            if cur_is_conductive {
                if !prev_is_conductive {
                    last_id = last_id + 1;
                }
                row.push(last_id);
            } else {
                row.push(-1);
            }
            prev_is_conductive = cur_is_conductive;
            k = k + 1;
            x = x + 1;
        }
        map.push(row);
        y = y + 1;
    }
    proof {
        assert(h * w == w * h) by (nonlinear_arith);
        lemma_starts_bounded(*img, k as int);
    }
    (map, last_id)
}

/// `map` is a `width` by `height` grid of ids that `uf` admits, with -1 for
/// "none".
pub open spec fn grid_ok(map: Seq<Vec<i32>>, width: int, height: int, uf: DisjointSets) -> bool {
    &&& map.len() == height
    &&& forall|y: int| 0 <= y < height ==> (#[trigger] map[y])@.len() == width
    &&& forall|y: int, x: int|
        0 <= y < height && 0 <= x < width ==> -1 <= #[trigger] map[y]@[x] && uf.admits(map[y]@[x])
}

/// Some column holds id `a` directly above id `b`.
pub open spec fn vertical_contact(map: Seq<Vec<i32>>, width: int, height: int, a: i32, b: i32) -> bool {
    exists|y: int, x: int|
        1 <= y < height && 0 <= x < width && a != -1 && b != -1 && #[trigger] map[y - 1]@[x] == a
            && #[trigger] map[y]@[x] == b
}

/// Some crossing has id `a` on one side and id `b` on the opposite side.
pub open spec fn crossing_pair(map: Seq<Vec<i32>>, width: int, height: int, a: i32, b: i32) -> bool {
    exists|y: int, x: int|
        1 <= y < height - 1 && 1 <= x < width - 1 && #[trigger] is_crossing(map, x, y) && ((map[y]@[x
            - 1] == a && map[y]@[x + 1] == b) || (map[y - 1]@[x] == a && map[y + 1]@[x] == b))
}

/// Runs `a` and `b` touch: vertically, or through a crossing.
pub open spec fn wire_edge(map: Seq<Vec<i32>>, width: int, height: int, a: i32, b: i32) -> bool {
    vertical_contact(map, width, height, a, b) || vertical_contact(map, width, height, b, a)
        || crossing_pair(map, width, height, a, b) || crossing_pair(map, width, height, b, a)
}

pub open spec fn path_step(map: Seq<Vec<i32>>, width: int, height: int, s: Seq<i32>, k: int) -> bool {
    s[k] == s[k + 1] || wire_edge(map, width, height, s[k], s[k + 1])
}

/// `s` walks from run to run, each step along a contact.
pub open spec fn is_path(map: Seq<Vec<i32>>, width: int, height: int, s: Seq<i32>) -> bool {
    s.len() >= 1 && forall|k: int| 0 <= k < s.len() - 1 ==> #[trigger] path_step(map, width, height, s, k)
}

/// Runs `i` and `j` are connected through a chain of contacts.
pub open spec fn linked(map: Seq<Vec<i32>>, width: int, height: int, i: i32, j: i32) -> bool {
    exists|s: Seq<i32>| is_path(map, width, height, s) && s[0] == i && s[s.len() - 1] == j
}

/// Every partition of `uf` holds only runs connected through contacts.
pub open spec fn joined_by_contacts(uf: DisjointSets, map: Seq<Vec<i32>>, width: int, height: int) -> bool {
    forall|i: i32, j: i32|
        uf.is_id(i) && uf.is_id(j) && #[trigger] uf.rep(i) == #[trigger] uf.rep(j) ==> linked(
            map,
            width,
            height,
            i,
            j,
        )
}

proof fn lemma_path_join(map: Seq<Vec<i32>>, width: int, height: int, s1: Seq<i32>, s2: Seq<i32>)
    requires
        is_path(map, width, height, s1),
        is_path(map, width, height, s2),
        wire_edge(map, width, height, s1[s1.len() - 1], s2[0]),
    ensures
        is_path(map, width, height, s1 + s2),
        (s1 + s2)[0] == s1[0],
        (s1 + s2)[(s1 + s2).len() - 1] == s2[s2.len() - 1],
{
    let s = s1 + s2;
    assert forall|k: int| 0 <= k < s.len() - 1 implies #[trigger] path_step(map, width, height, s, k) by {
        if k < s1.len() - 1 {
            assert(path_step(map, width, height, s1, k));
        } else if k >= s1.len() {
            assert(path_step(map, width, height, s2, k - s1.len()));
        }
    }
}

/// A merge along a contact keeps every partition connected.
proof fn lemma_merge_along_contact(
    before: DisjointSets,
    after: DisjointSets,
    map: Seq<Vec<i32>>,
    width: int,
    height: int,
    a: i32,
    b: i32,
)
    requires
        before.wf(),
        joined_by_contacts(before, map, width, height),
        before.is_id(a),
        before.is_id(b),
        wire_edge(map, width, height, a, b),
        forall|j: i32| #[trigger] after.is_id(j) == before.is_id(j),
        forall|j: i32|
            before.admits(j) ==> #[trigger] after.rep(j) == if before.rep(j) == before.rep(a) {
                before.rep(b)
            } else {
                before.rep(j)
            },
    ensures
        joined_by_contacts(after, map, width, height),
{
    assert forall|i: i32, j: i32|
        after.is_id(i) && after.is_id(j) && #[trigger] after.rep(i) == #[trigger] after.rep(j) implies linked(
        map,
        width,
        height,
        i,
        j,
    ) by {
        lemma_find_idempotent(before, b);
        lemma_find_idempotent(before, a);
        lemma_find_idempotent(before, i);
        lemma_find_idempotent(before, j);
        if before.rep(i) == before.rep(j) {
        } else if before.rep(i) == before.rep(a) {
            assert(before.rep(j) == before.rep(b));
            let s1 = choose|s: Seq<i32>| is_path(map, width, height, s) && s[0] == i && s[s.len() - 1] == a;
            let s2 = choose|s: Seq<i32>| is_path(map, width, height, s) && s[0] == b && s[s.len() - 1] == j;
            lemma_path_join(map, width, height, s1, s2);
        } else {
            assert(before.rep(j) == before.rep(a));
            assert(before.rep(i) == before.rep(b));
            let s1 = choose|s: Seq<i32>| is_path(map, width, height, s) && s[0] == i && s[s.len() - 1] == b;
            let s2 = choose|s: Seq<i32>| is_path(map, width, height, s) && s[0] == a && s[s.len() - 1] == j;
            lemma_path_join(map, width, height, s1, s2);
        }
    }
}

/// Merges the wires of every two vertically adjacent labelled pixels.
pub fn merge_vertical(map: &Vec<Vec<i32>>, width: usize, height: usize, uf: &mut DisjointSets)
    requires
        old(uf).wf(),
        grid_ok(map@, width as int, height as int, *old(uf)),
        joined_by_contacts(*old(uf), map@, width as int, height as int),
    ensures
        final(uf).wf(),
        joined_by_contacts(*final(uf), map@, width as int, height as int),
        forall|j: i32| #[trigger] final(uf).admits(j) == old(uf).admits(j),
        forall|j: i32| #[trigger] final(uf).is_id(j) == old(uf).is_id(j),
        forall|i: i32, j: i32|
            old(uf).admits(i) && old(uf).admits(j) && old(uf).rep(i) == old(uf).rep(j) ==> #[trigger] final(uf).rep(i)
                == #[trigger] final(uf).rep(j),
        forall|y: int, x: int|
            1 <= y < height && 0 <= x < width && map@[y - 1]@[x] >= 0 && map@[y]@[x] >= 0
                ==> final(uf).rep(#[trigger] map@[y - 1]@[x]) == final(uf).rep(map@[y]@[x]),
{
    let ghost s0 = *uf;
    let mut x: usize = 0;
    while x < width
        invariant
            uf.wf(),
            forall|j: i32| #[trigger] uf.admits(j) == s0.admits(j),
            forall|j: i32| #[trigger] uf.is_id(j) == s0.is_id(j),
            grid_ok(map@, width as int, height as int, s0),
            joined_by_contacts(*uf, map@, width as int, height as int),
            s0.wf(),
            x <= width,
            forall|i: i32, j: i32|
                s0.admits(i) && s0.admits(j) && s0.rep(i) == s0.rep(j) ==> #[trigger] uf.rep(i)
                    == #[trigger] uf.rep(j),
            forall|y: int, xx: int|
                1 <= y < height && 0 <= xx < x && map@[y - 1]@[xx] >= 0 && map@[y]@[xx] >= 0
                    ==> uf.rep(#[trigger] map@[y - 1]@[xx]) == uf.rep(map@[y]@[xx]),
        decreases width - x,
    {
        let mut y: usize = 1;
        while y < height
            invariant
                uf.wf(),
                forall|j: i32| #[trigger] uf.admits(j) == s0.admits(j),
                forall|j: i32| #[trigger] uf.is_id(j) == s0.is_id(j),
                grid_ok(map@, width as int, height as int, s0),
                joined_by_contacts(*uf, map@, width as int, height as int),
                s0.wf(),
                x < width,
                1 <= y,
                y <= height || height == 0,
                forall|i: i32, j: i32|
                    s0.admits(i) && s0.admits(j) && s0.rep(i) == s0.rep(j) ==> #[trigger] uf.rep(i)
                        == #[trigger] uf.rep(j),
                forall|yy: int, xx: int|
                    1 <= yy < height && 0 <= xx < x && map@[yy - 1]@[xx] >= 0 && map@[yy]@[xx] >= 0
                        ==> uf.rep(#[trigger] map@[yy - 1]@[xx]) == uf.rep(map@[yy]@[xx]),
                forall|yy: int|
                    1 <= yy < y && yy < height && map@[yy - 1]@[x as int] >= 0 && map@[yy]@[x as int] >= 0
                        ==> uf.rep(#[trigger] map@[yy - 1]@[x as int]) == uf.rep(map@[yy]@[x as int]),
            decreases height - y,
        {
            let prev_wire_id = map[y - 1][x];
            let cur_wire_id = map[y][x];
            if prev_wire_id != -1 && cur_wire_id != -1 {
                let ghost before = *uf;
                uf.merge(prev_wire_id, cur_wire_id);
                proof {
                    assert(map@[y - 1]@[x as int] == prev_wire_id && map@[y as int]@[x as int] == cur_wire_id);
                    assert(vertical_contact(map@, width as int, height as int, prev_wire_id, cur_wire_id));
                    lemma_merge_along_contact(
                        before,
                        *uf,
                        map@,
                        width as int,
                        height as int,
                        prev_wire_id,
                        cur_wire_id,
                    );
                }
            }
            y = y + 1;
        }
        x = x + 1;
    }
}

/// Cell `(x, y)` of the map holds a wire.
pub open spec fn filled(map: Seq<Vec<i32>>, x: int, y: int) -> bool {
    map[y]@[x] != -1
}

/// An empty cell whose four orthogonal neighbours all hold wires.
pub open spec fn plus_cell(map: Seq<Vec<i32>>, x: int, y: int) -> bool {
    &&& !filled(map, x, y)
    &&& filled(map, x, y - 1)
    &&& filled(map, x, y + 1)
    &&& filled(map, x - 1, y)
    &&& filled(map, x + 1, y)
}

/// Which diagonal neighbours hold wires: bottom-left, bottom-right, top-left,
/// top-right.
pub open spec fn diagonals(map: Seq<Vec<i32>>, x: int, y: int) -> (bool, bool, bool, bool) {
    (
        filled(map, x - 1, y + 1),
        filled(map, x + 1, y + 1),
        filled(map, x - 1, y - 1),
        filled(map, x + 1, y - 1),
    )
}

/// Two wires pass over each other at `(x, y)` without connecting.
pub open spec fn is_crossing(map: Seq<Vec<i32>>, x: int, y: int) -> bool {
    plus_cell(map, x, y) && diagonals(map, x, y) == (false, false, false, false)
}

/// A NOT gate symbol is centred at `(x, y)`, in one of its four orientations.
pub open spec fn is_not_cell(map: Seq<Vec<i32>>, x: int, y: int) -> bool {
    plus_cell(map, x, y) && {
        let d = diagonals(map, x, y);
        d == (true, true, false, false) || d == (false, false, true, true) || d == (
            false,
            true,
            false,
            true,
        ) || d == (true, false, true, false)
    }
}

/// The neighbour that a NOT gate centred at `(x, y)` reads: below for a gate
/// facing up, above for one facing down, right for one facing left, left for
/// one facing right.
pub open spec fn gate_input(map: Seq<Vec<i32>>, x: int, y: int) -> (int, int) {
    let d = diagonals(map, x, y);
    if d == (true, true, false, false) {
        (x, y + 1)
    } else if d == (false, false, true, true) {
        (x, y - 1)
    } else if d == (false, true, false, true) {
        (x + 1, y)
    } else {
        (x - 1, y)
    }
}

/// The neighbour that a NOT gate centred at `(x, y)` drives: the one opposite
/// its input.
pub open spec fn gate_output(map: Seq<Vec<i32>>, x: int, y: int) -> (int, int) {
    let (ix, iy) = gate_input(map, x, y);
    (2 * x - ix, 2 * y - iy)
}

pub open spec fn at(map: Seq<Vec<i32>>, c: (int, int)) -> i32 {
    map[c.1]@[c.0]
}

/// Cell `(x1, y1)` comes before cell `(x2, y2)` in row-major order.
pub open spec fn scanned_before(x1: int, y1: int, x2: int, y2: int) -> bool {
    y1 < y2 || (y1 == y2 && x1 < x2)
}

/// The gates stand in row-major order of their cells.
pub open spec fn gates_in_scan_order(gates: Seq<NotGate>) -> bool {
    forall|g1: int, g2: int|
        0 <= g1 < g2 < gates.len() ==> scanned_before(
            (#[trigger] gates[g1]).x as int,
            gates[g1].y as int,
            (#[trigger] gates[g2]).x as int,
            gates[g2].y as int,
        )
}

/// What gate detection owes for the cells of the first `count` gates.
pub open spec fn gates_match(
    map: Seq<Vec<i32>>,
    width: int,
    height: int,
    uf: DisjointSets,
    gates: Seq<NotGate>,
) -> bool {
    forall|g: int|
        0 <= g < gates.len() ==> {
            let gate = #[trigger] gates[g];
            &&& gate.wf()
            &&& !gate.state
            &&& gate.slow_state == 0
            &&& gate.dir == 0
            &&& 1 <= gate.x < width - 1
            &&& 1 <= gate.y < height - 1
            &&& is_not_cell(map, gate.x as int, gate.y as int)
            &&& uf.is_id(gate.wire_in_id)
            &&& uf.is_id(gate.wire_out_id)
            &&& uf.rep(gate.wire_in_id) == uf.rep(at(map, gate_input(map, gate.x as int, gate.y as int)))
            &&& uf.rep(gate.wire_out_id) == uf.rep(at(map, gate_output(map, gate.x as int, gate.y as int)))
        }
}

/// Joins the wires of a crossing at `(x, y)`, or records the NOT gate centred
/// there; does nothing at any other cell.
fn check_cell(
    map: &Vec<Vec<i32>>,
    width: usize,
    height: usize,
    x: usize,
    y: usize,
    uf: &mut DisjointSets,
    gates: &mut Vec<NotGate>,
)
    requires
        old(uf).wf(),
        grid_ok(map@, width as int, height as int, *old(uf)),
        1 <= x < width - 1,
        1 <= y < height - 1,
        width <= u32::MAX,
        height <= u32::MAX,
        gates_match(map@, width as int, height as int, *old(uf), old(gates)@),
        joined_by_contacts(*old(uf), map@, width as int, height as int),
        gates_in_scan_order(old(gates)@),
        forall|g: int|
            0 <= g < old(gates)@.len() ==> scanned_before(
                (#[trigger] old(gates)@[g]).x as int,
                old(gates)@[g].y as int,
                x as int,
                y as int,
            ),
    ensures
        gates_in_scan_order(final(gates)@),
        forall|g: int|
            0 <= g < final(gates)@.len() ==> scanned_before(
                (#[trigger] final(gates)@[g]).x as int,
                final(gates)@[g].y as int,
                x + 1,
                y as int,
            ),
        final(uf).wf(),
        joined_by_contacts(*final(uf), map@, width as int, height as int),
        forall|j: i32| #[trigger] final(uf).admits(j) == old(uf).admits(j),
        forall|j: i32| #[trigger] final(uf).is_id(j) == old(uf).is_id(j),
        forall|i: i32, j: i32|
            old(uf).admits(i) && old(uf).admits(j) && old(uf).rep(i) == old(uf).rep(j) ==> #[trigger] final(uf).rep(i)
                == #[trigger] final(uf).rep(j),
        is_crossing(map@, x as int, y as int) ==> {
            &&& final(uf).rep(map@[y as int]@[x - 1]) == final(uf).rep(map@[y as int]@[x + 1])
            &&& final(uf).rep(map@[y - 1]@[x as int]) == final(uf).rep(map@[y + 1]@[x as int])
        },
        gates_match(map@, width as int, height as int, *final(uf), final(gates)@),
        old(gates)@.len() <= final(gates)@.len() <= old(gates)@.len() + 1,
        forall|g: int| 0 <= g < old(gates)@.len() ==> #[trigger] final(gates)@[g] == old(gates)@[g],
        is_not_cell(map@, x as int, y as int) ==> final(gates)@.len() == old(gates)@.len() + 1
            && final(gates)@[old(gates)@.len() as int].x == x && final(gates)@[old(gates)@.len() as int].y == y,
{
    let ghost u_start = *uf;
    let ghost g_start = gates@;
    let up = map[y - 1][x];
    let down = map[y + 1][x];
    let left = map[y][x - 1];
    let right = map[y][x + 1];
    if up != -1 && down != -1 && left != -1 && right != -1 && map[y][x] == -1 {
        let bl = map[y + 1][x - 1] != -1;
        let br = map[y + 1][x + 1] != -1;
        let tl = map[y - 1][x - 1] != -1;
        let tr = map[y - 1][x + 1] != -1;
        let ghost cell_in = gate_input(map@, x as int, y as int);
        let ghost cell_out = gate_output(map@, x as int, y as int);
        if !bl && !br && !tl && !tr {
            proof {
                assert(is_crossing(map@, x as int, y as int));
                assert(crossing_pair(map@, width as int, height as int, left, right));
                assert(crossing_pair(map@, width as int, height as int, up, down));
            }
            let ghost b0 = *uf;
            uf.merge(left, right);
            proof {
                lemma_merge_along_contact(b0, *uf, map@, width as int, height as int, left, right);
            }
            let ghost b1 = *uf;
            uf.merge(up, down);
            proof {
                lemma_merge_along_contact(b1, *uf, map@, width as int, height as int, up, down);
            }
        } else if (bl && br && !tl && !tr) || (!bl && !br && tl && tr) || (!bl && br && !tl
            && tr) || (bl && !br && tl && !tr) {
            let (input, output) = if bl && br && !tl && !tr {
                (down, up)
            } else if !bl && !br && tl && tr {
                (up, down)
            } else if !bl && br && !tl && tr {
                (right, left)
            } else {
                (left, right)
            };
            assert(input == at(map@, cell_in));
            assert(output == at(map@, cell_out));
            let ghost u0 = *uf;
            let wire_in_id = uf.find(input);
            let ghost u1 = *uf;
            let wire_out_id = uf.find(output);
            proof {
                lemma_find_idempotent(u0, input);
                lemma_find_idempotent(u1, output);
                lemma_find_idempotent(u0, output);
            }
            gates.push(NotGate::new(wire_in_id, wire_out_id, x as u32, y as u32, 0));
            proof {
                assert(gates@[gates@.len() - 1].x == x);
            }
        }
    }
    proof {
        let u = *uf;
        assert forall|g: int| 0 <= g < g_start.len() implies {
            let gate = #[trigger] gates@[g];
            &&& u.rep(gate.wire_in_id) == u.rep(at(map@, gate_input(map@, gate.x as int, gate.y as int)))
            &&& u.rep(gate.wire_out_id) == u.rep(at(map@, gate_output(map@, gate.x as int, gate.y as int)))
        } by {
            let gate = gates@[g];
            assert(g_start[g] == gate);
            let ci = at(map@, gate_input(map@, gate.x as int, gate.y as int));
            let co = at(map@, gate_output(map@, gate.x as int, gate.y as int));
            assert(u_start.rep(gate.wire_in_id) == u_start.rep(ci));
            assert(u_start.rep(gate.wire_out_id) == u_start.rep(co));
        }
    }
}

/// Scans the interior cells: joins the two wires of each crossing, and returns
/// a gate for each NOT symbol, in row-major order, wired to the
/// representatives of its input and output wires.
pub fn detect_gates(map: &Vec<Vec<i32>>, width: usize, height: usize, uf: &mut DisjointSets) -> (gates:
    Vec<NotGate>)
    requires
        old(uf).wf(),
        grid_ok(map@, width as int, height as int, *old(uf)),
        width * height < i32::MAX,
        width <= u32::MAX,
        height <= u32::MAX,
        joined_by_contacts(*old(uf), map@, width as int, height as int),
    ensures
        final(uf).wf(),
        joined_by_contacts(*final(uf), map@, width as int, height as int),
        forall|j: i32| #[trigger] final(uf).admits(j) == old(uf).admits(j),
        forall|j: i32| #[trigger] final(uf).is_id(j) == old(uf).is_id(j),
        forall|i: i32, j: i32|
            old(uf).admits(i) && old(uf).admits(j) && old(uf).rep(i) == old(uf).rep(j) ==> #[trigger] final(uf).rep(i)
                == #[trigger] final(uf).rep(j),
        forall|y: int, x: int|
            1 <= y < height - 1 && 1 <= x < width - 1 && #[trigger] is_crossing(map@, x, y) ==> {
                &&& final(uf).rep(map@[y]@[x - 1]) == final(uf).rep(map@[y]@[x + 1])
                &&& final(uf).rep(map@[y - 1]@[x]) == final(uf).rep(map@[y + 1]@[x])
            },
        gates_match(map@, width as int, height as int, *final(uf), gates@),
        forall|y: int, x: int|
            1 <= y < height - 1 && 1 <= x < width - 1 && #[trigger] is_not_cell(map@, x, y) ==> exists|g: int|
                0 <= g < gates@.len() && (#[trigger] gates@[g]).x == x && gates@[g].y == y,
        gates@.len() <= width * height,
        gates_in_scan_order(gates@),
{
    let ghost s0 = *uf;
    let mut gates: Vec<NotGate> = Vec::new();
    if height < 2 || width < 2 {
        return gates;
    }
    let mut y: usize = 1;
    while y < height - 1
        invariant
            uf.wf(),
            forall|j: i32| #[trigger] uf.admits(j) == s0.admits(j),
            forall|j: i32| #[trigger] uf.is_id(j) == s0.is_id(j),
            grid_ok(map@, width as int, height as int, s0),
            joined_by_contacts(*uf, map@, width as int, height as int),
            gates_in_scan_order(gates@),
            forall|g: int|
                0 <= g < gates@.len() ==> scanned_before(
                    (#[trigger] gates@[g]).x as int,
                    gates@[g].y as int,
                    0,
                    y as int,
                ),
            width >= 2,
            height >= 2,
            width * height < i32::MAX,
            width <= u32::MAX,
            height <= u32::MAX,
            1 <= y <= height - 1,
            gates@.len() <= y * width,
            forall|i: i32, j: i32|
                s0.admits(i) && s0.admits(j) && s0.rep(i) == s0.rep(j) ==> #[trigger] uf.rep(i)
                    == #[trigger] uf.rep(j),
            forall|yy: int, x: int|
                1 <= yy < y && 1 <= x < width - 1 && #[trigger] is_crossing(map@, x, yy) ==> {
                    &&& uf.rep(map@[yy]@[x - 1]) == uf.rep(map@[yy]@[x + 1])
                    &&& uf.rep(map@[yy - 1]@[x]) == uf.rep(map@[yy + 1]@[x])
                },
            gates_match(map@, width as int, height as int, *uf, gates@),
            forall|yy: int, x: int|
                1 <= yy < y && 1 <= x < width - 1 && #[trigger] is_not_cell(map@, x, yy) ==> exists|g: int|
                    0 <= g < gates@.len() && (#[trigger] gates@[g]).x == x && gates@[g].y == yy,
        decreases height - y,
    {
        assert((y + 1) * width == y * width + width) by (nonlinear_arith);
        assert((y + 1) * width <= width * height) by (nonlinear_arith)
            requires
                y + 1 <= height,
        ;
        let mut x: usize = 1;
        while x < width - 1
            invariant
                uf.wf(),
                forall|j: i32| #[trigger] uf.admits(j) == s0.admits(j),
                forall|j: i32| #[trigger] uf.is_id(j) == s0.is_id(j),
                grid_ok(map@, width as int, height as int, s0),
                joined_by_contacts(*uf, map@, width as int, height as int),
                gates_in_scan_order(gates@),
                forall|g: int|
                    0 <= g < gates@.len() ==> scanned_before(
                        (#[trigger] gates@[g]).x as int,
                        gates@[g].y as int,
                        x as int,
                        y as int,
                    ),
                width >= 2,
                height >= 2,
                width * height < i32::MAX,
                width <= u32::MAX,
                height <= u32::MAX,
                1 <= y < height - 1,
                1 <= x <= width - 1,
                gates@.len() <= y * width + x,
                (y + 1) * width <= width * height,
                (y + 1) * width == y * width + width,
                forall|i: i32, j: i32|
                    s0.admits(i) && s0.admits(j) && s0.rep(i) == s0.rep(j) ==> #[trigger] uf.rep(i)
                        == #[trigger] uf.rep(j),
                forall|yy: int, xx: int|
                    1 <= yy < height - 1 && 1 <= xx < width - 1 && (yy < y || (yy == y && xx < x))
                        && #[trigger] is_crossing(map@, xx, yy) ==> {
                        &&& uf.rep(map@[yy]@[xx - 1]) == uf.rep(map@[yy]@[xx + 1])
                        &&& uf.rep(map@[yy - 1]@[xx]) == uf.rep(map@[yy + 1]@[xx])
                    },
                gates_match(map@, width as int, height as int, *uf, gates@),
                forall|yy: int, xx: int|
                    1 <= yy < height - 1 && 1 <= xx < width - 1 && (yy < y || (yy == y && xx < x))
                        && #[trigger] is_not_cell(map@, xx, yy) ==> exists|g: int|
                        0 <= g < gates@.len() && (#[trigger] gates@[g]).x == xx && gates@[g].y == yy,
            decreases width - x,
        {
            let ghost g_prev = gates@;
            check_cell(map, width, height, x, y, uf, &mut gates);
            proof {
                assert forall|yy: int, xx: int|
                    1 <= yy < height - 1 && 1 <= xx < width - 1 && (yy < y || (yy == y && xx < x + 1))
                        && #[trigger] is_not_cell(map@, xx, yy) implies exists|g: int|
                        0 <= g < gates@.len() && (#[trigger] gates@[g]).x == xx && gates@[g].y == yy by {
                    if yy == y && xx == x {
                        assert(gates@[g_prev.len() as int].x == xx);
                    } else {
                        assert(yy < y || (yy == y && xx < x));
                        assert(exists|g: int|
                            0 <= g < g_prev.len() && (#[trigger] g_prev[g]).x == xx && g_prev[g].y == yy);
                        let g = choose|g: int|
                            0 <= g < g_prev.len() && (#[trigger] g_prev[g]).x == xx && g_prev[g].y == yy;
                        assert(gates@[g] == g_prev[g]);
                    }
                }
            }
            x = x + 1;
        }
        y = y + 1;
    }
    proof {
        assert(y * width <= width * height) by (nonlinear_arith)
            requires
                y <= height,
        ;
    }
    gates
}

/// Every wire of `wires` is new: low, with no gates attached.
pub open spec fn all_fresh(wires: Seq<Wire>) -> bool {
    forall|w: int|
        0 <= w < wires.len() ==> {
            &&& (#[trigger] wires[w]).gate_in_ids@.len() == 0
            &&& wires[w].gate_out_ids@.len() == 0
            &&& !wires[w].state
        }
}

/// Dense id `w` is the number that `remap` gives some root below `n`.
pub open spec fn numbers_root(uf: DisjointSets, remap: Seq<i32>, n: int, w: int) -> bool {
    exists|j: i32| 0 <= j < n && uf.rep(j) == j && #[trigger] remap[j as int] == w
}

/// Gives each root id, in ascending order, the next dense wire id, and makes
/// one wire for it.
pub fn number_roots(uf: &mut DisjointSets, count: i32) -> (r: (Vec<i32>, Vec<Wire>))
    requires
        old(uf).wf(),
        count >= 0,
        forall|j: i32| #[trigger] old(uf).is_id(j) == (0 <= j < count),
    ensures
        final(uf).wf(),
        forall|j: i32| #[trigger] final(uf).admits(j) == old(uf).admits(j),
        forall|j: i32| #[trigger] final(uf).is_id(j) == old(uf).is_id(j),
        forall|j: i32| old(uf).admits(j) ==> #[trigger] final(uf).rep(j) == old(uf).rep(j),
        r.0@.len() == count,
        r.1@.len() <= count,
        all_fresh(r.1@),
        forall|j: i32|
            0 <= j < count && #[trigger] old(uf).rep(j) == j ==> 0 <= r.0@[j as int] < r.1@.len(),
        forall|i: i32, j: i32|
            0 <= i < j < count && #[trigger] old(uf).rep(i) == i && #[trigger] old(uf).rep(j) == j
                ==> r.0@[i as int] < r.0@[j as int],
        forall|w: int| 0 <= w < r.1@.len() ==> #[trigger] numbers_root(*old(uf), r.0@, count as int, w),
{
    let ghost s0 = *uf;
    let mut wire_remap: Vec<i32> = Vec::new();
    let mut wires: Vec<Wire> = Vec::new();
    let mut wire_id: i32 = 0;
    while wire_id < count
        invariant
            uf.wf(),
            0 <= wire_id <= count,
            forall|j: i32| #[trigger] uf.admits(j) == s0.admits(j),
            forall|j: i32| #[trigger] uf.is_id(j) == s0.is_id(j),
            forall|j: i32| #[trigger] s0.is_id(j) == (0 <= j < count),
            forall|j: i32| s0.admits(j) ==> #[trigger] uf.rep(j) == s0.rep(j),
            wire_remap@.len() == wire_id,
            wires@.len() <= wire_id,
            all_fresh(wires@),
            forall|j: i32|
                0 <= j < wire_id && #[trigger] s0.rep(j) == j ==> 0 <= wire_remap@[j as int]
                    < wires@.len(),
            forall|i: i32, j: i32|
                0 <= i < j < wire_id && #[trigger] s0.rep(i) == i && #[trigger] s0.rep(j) == j
                    ==> wire_remap@[i as int] < wire_remap@[j as int],
            forall|w: int|
                0 <= w < wires@.len() ==> #[trigger] numbers_root(s0, wire_remap@, wire_id as int, w),
        decreases count - wire_id,
    {
        assert(s0.is_id(wire_id));
        assert(uf.is_id(wire_id));
        let ghost remap_before = wire_remap@;
        let ghost n_before = wires@.len();
        if uf.is_root(wire_id) {
            wire_remap.push(wires.len() as i32);
            wires.push(Wire::new());
        } else {
            wire_remap.push(0);
        }
        proof {
            assert forall|w: int| 0 <= w < wires@.len() implies #[trigger] numbers_root(
                s0,
                wire_remap@,
                wire_id + 1,
                w,
            ) by {
                if w == n_before {
                    assert(wire_remap@[wire_id as int] == w);
                } else {
                    assert(numbers_root(s0, remap_before, wire_id as int, w));
                    let j = choose|j: i32|
                        0 <= j < wire_id && s0.rep(j) == j && #[trigger] remap_before[j as int] == w;
                    assert(wire_remap@[j as int] == w);
                }
            }
        }
        wire_id = wire_id + 1;
    }
    (wire_remap, wires)
}

/// The dense id of provisional id `v`: the number given to its root.
pub open spec fn dense_id(uf: DisjointSets, remap: Seq<i32>, v: i32) -> i32 {
    if v == -1 {
        -1i32
    } else {
        remap[uf.rep(v) as int]
    }
}

/// Rewrites every cell of the map from its provisional id to its dense one.
pub fn relabel_map(
    map: &mut Vec<Vec<i32>>,
    width: usize,
    height: usize,
    uf: &mut DisjointSets,
    remap: &Vec<i32>,
    n_wires: usize,
)
    requires
        old(uf).wf(),
        grid_ok(old(map)@, width as int, height as int, *old(uf)),
        forall|j: i32| #[trigger] old(uf).is_id(j) == (0 <= j < remap@.len()),
        forall|j: i32|
            0 <= j < remap@.len() && #[trigger] old(uf).rep(j) == j ==> 0 <= remap@[j as int] < n_wires,
    ensures
        final(uf).wf(),
        forall|j: i32| #[trigger] final(uf).admits(j) == old(uf).admits(j),
        forall|j: i32| #[trigger] final(uf).is_id(j) == old(uf).is_id(j),
        forall|j: i32| old(uf).admits(j) ==> #[trigger] final(uf).rep(j) == old(uf).rep(j),
        final(map)@.len() == height,
        forall|y: int| 0 <= y < height ==> (#[trigger] final(map)@[y])@.len() == width,
        forall|y: int, x: int|
            0 <= y < height && 0 <= x < width ==> #[trigger] final(map)@[y]@[x] == dense_id(
                *old(uf),
                remap@,
                old(map)@[y]@[x],
            ),
        forall|y: int, x: int|
            0 <= y < height && 0 <= x < width ==> -1 <= #[trigger] final(map)@[y]@[x] < n_wires,
{
    let ghost s0 = *uf;
    let ghost m0 = map@;
    let mut y: usize = 0;
    while y < height
        invariant
            uf.wf(),
            forall|j: i32| #[trigger] uf.admits(j) == s0.admits(j),
            forall|j: i32| #[trigger] uf.is_id(j) == s0.is_id(j),
            forall|j: i32| s0.admits(j) ==> #[trigger] uf.rep(j) == s0.rep(j),
            grid_ok(m0, width as int, height as int, s0),
            s0.wf(),
            forall|j: i32| #[trigger] s0.is_id(j) == (0 <= j < remap@.len()),
            forall|j: i32|
                0 <= j < remap@.len() && #[trigger] s0.rep(j) == j ==> 0 <= remap@[j as int] < n_wires,
            y <= height,
            map@.len() == height,
            forall|yy: int| 0 <= yy < height ==> (#[trigger] map@[yy])@.len() == width,
            forall|yy: int, x: int|
                y <= yy < height && 0 <= x < width ==> #[trigger] map@[yy]@[x] == m0[yy]@[x],
            forall|yy: int, x: int|
                0 <= yy < y && 0 <= x < width ==> #[trigger] map@[yy]@[x] == dense_id(s0, remap@, m0[yy]@[x]),
            forall|yy: int, x: int|
                0 <= yy < y && 0 <= x < width ==> -1 <= #[trigger] map@[yy]@[x] < n_wires,
        decreases height - y,
    {
        let mut x: usize = 0;
        while x < width
            invariant
                uf.wf(),
                forall|j: i32| #[trigger] uf.admits(j) == s0.admits(j),
                forall|j: i32| #[trigger] uf.is_id(j) == s0.is_id(j),
                forall|j: i32| s0.admits(j) ==> #[trigger] uf.rep(j) == s0.rep(j),
                grid_ok(m0, width as int, height as int, s0),
                s0.wf(),
                forall|j: i32| #[trigger] s0.is_id(j) == (0 <= j < remap@.len()),
                forall|j: i32|
                    0 <= j < remap@.len() && #[trigger] s0.rep(j) == j ==> 0 <= remap@[j as int]
                        < n_wires,
                y < height,
                x <= width,
                map@.len() == height,
                forall|yy: int| 0 <= yy < height ==> (#[trigger] map@[yy])@.len() == width,
                forall|yy: int, xx: int|
                    (y < yy < height || (yy == y && x <= xx)) && 0 <= xx < width ==> #[trigger] map@[yy]@[xx]
                        == m0[yy]@[xx],
                forall|yy: int, xx: int|
                    (0 <= yy < y || (yy == y && xx < x)) && 0 <= xx < width ==> #[trigger] map@[yy]@[xx]
                        == dense_id(s0, remap@, m0[yy]@[xx]),
                forall|yy: int, xx: int|
                    (0 <= yy < y || (yy == y && xx < x)) && 0 <= xx < width ==> -1 <= #[trigger] map@[yy]@[xx]
                        < n_wires,
            decreases width - x,
        {
            let v = map[y][x];
            if v != -1 {
                assert(s0.is_id(v));
                let root = uf.find(v);
                proof {
                    lemma_find_idempotent(s0, v);
                }
                map[y][x] = remap[root as usize];
            }
            x = x + 1;
        }
        y = y + 1;
    }
}

/// Rewrites each gate's wire ids from provisional to dense ones.
pub fn relabel_gates(gates: &mut Vec<NotGate>, uf: &mut DisjointSets, remap: &Vec<i32>)
    requires
        old(uf).wf(),
        forall|j: i32| #[trigger] old(uf).is_id(j) == (0 <= j < remap@.len()),
        forall|g: int|
            0 <= g < old(gates)@.len() ==> old(uf).is_id((#[trigger] old(gates)@[g]).wire_in_id)
                && old(uf).is_id(old(gates)@[g].wire_out_id),
    ensures
        final(uf).wf(),
        forall|j: i32| #[trigger] final(uf).admits(j) == old(uf).admits(j),
        forall|j: i32| #[trigger] final(uf).is_id(j) == old(uf).is_id(j),
        forall|j: i32| old(uf).admits(j) ==> #[trigger] final(uf).rep(j) == old(uf).rep(j),
        final(gates)@.len() == old(gates)@.len(),
        forall|g: int|
            0 <= g < old(gates)@.len() ==> {
                let a = #[trigger] final(gates)@[g];
                let b = old(gates)@[g];
                &&& a.wire_in_id == dense_id(*old(uf), remap@, b.wire_in_id)
                &&& a.wire_out_id == dense_id(*old(uf), remap@, b.wire_out_id)
                &&& a.state == b.state
                &&& a.slow_state == b.slow_state
                &&& a.x == b.x
                &&& a.y == b.y
                &&& a.dir == b.dir
            },
{
    let ghost s0 = *uf;
    let ghost g0 = gates@;
    let mut i: usize = 0;
    while i < gates.len()
        invariant
            uf.wf(),
            s0.wf(),
            forall|j: i32| #[trigger] uf.admits(j) == s0.admits(j),
            forall|j: i32| #[trigger] uf.is_id(j) == s0.is_id(j),
            forall|j: i32| s0.admits(j) ==> #[trigger] uf.rep(j) == s0.rep(j),
            forall|j: i32| #[trigger] s0.is_id(j) == (0 <= j < remap@.len()),
            forall|g: int|
                0 <= g < g0.len() ==> s0.is_id((#[trigger] g0[g]).wire_in_id) && s0.is_id(
                    g0[g].wire_out_id,
                ),
            gates@.len() == g0.len(),
            i <= g0.len(),
            forall|g: int| i <= g < g0.len() ==> #[trigger] gates@[g] == g0[g],
            forall|g: int|
                0 <= g < i ==> {
                    let a = #[trigger] gates@[g];
                    let b = g0[g];
                    &&& a.wire_in_id == dense_id(s0, remap@, b.wire_in_id)
                    &&& a.wire_out_id == dense_id(s0, remap@, b.wire_out_id)
                    &&& a.state == b.state
                    &&& a.slow_state == b.slow_state
                    &&& a.x == b.x
                    &&& a.y == b.y
                    &&& a.dir == b.dir
                },
        decreases g0.len() - i,
    {
        let wire_in = gates[i].wire_in_id;
        let wire_out = gates[i].wire_out_id;
        let root_in = uf.find(wire_in);
        let root_out = uf.find(wire_out);
        proof {
            lemma_find_idempotent(s0, wire_in);
            lemma_find_idempotent(s0, wire_out);
        }
        gates[i].wire_in_id = remap[root_in as usize];
        gates[i].wire_out_id = remap[root_out as usize];
        i = i + 1;
    }
}

/// `ids` is strictly ascending, so each entry appears once.
pub open spec fn ascending(ids: Seq<u32>) -> bool {
    forall|k1: int, k2: int| 0 <= k1 < k2 < ids.len() ==> #[trigger] ids[k1] < #[trigger] ids[k2]
}

/// What `connect_gates` owes for the first `upto` gates: each wire lists,
/// once each and in ascending order, exactly the gates that drive it and
/// exactly the gates that read it.
pub open spec fn lists_ok(gates: Seq<NotGate>, wires: Seq<Wire>, upto: int) -> bool {
    &&& forall|w: int, g: int|
        0 <= w < wires.len() && 0 <= g < upto ==> (#[trigger] wires[w]).gate_in_ids@.contains(
            g as u32,
        ) == ((#[trigger] gates[g]).wire_out_id == w)
    &&& forall|w: int, g: int|
        0 <= w < wires.len() && 0 <= g < upto ==> (#[trigger] wires[w]).gate_out_ids@.contains(
            g as u32,
        ) == ((#[trigger] gates[g]).wire_in_id == w)
    &&& forall|w: int, k: int|
        0 <= w < wires.len() && 0 <= k < wires[w].gate_in_ids@.len() ==> #[trigger] wires[w].gate_in_ids@[k]
            < upto
    &&& forall|w: int, k: int|
        0 <= w < wires.len() && 0 <= k < wires[w].gate_out_ids@.len() ==> #[trigger] wires[w].gate_out_ids@[k]
            < upto
    &&& forall|w: int|
        0 <= w < wires.len() ==> ascending((#[trigger] wires[w]).gate_in_ids@) && ascending(
            wires[w].gate_out_ids@,
        )
}

/// Lists every gate on the wire it drives and on the wire it reads.
pub fn connect_gates(gates: &Vec<NotGate>, wires: &mut Vec<Wire>)
    requires
        gates@.len() < u32::MAX,
        all_fresh(old(wires)@),
        forall|g: int|
            0 <= g < gates@.len() ==> 0 <= (#[trigger] gates@[g]).wire_in_id < old(wires)@.len() && 0
                <= gates@[g].wire_out_id < old(wires)@.len(),
    ensures
        final(wires)@.len() == old(wires)@.len(),
        forall|w: int| 0 <= w < final(wires)@.len() ==> !(#[trigger] final(wires)@[w]).state,
        lists_ok(gates@, final(wires)@, gates@.len() as int),
{
    let mut gate_id: usize = 0;
    while gate_id < gates.len()
        invariant
            gates@.len() < u32::MAX,
            forall|g: int|
                0 <= g < gates@.len() ==> 0 <= (#[trigger] gates@[g]).wire_in_id < wires@.len() && 0
                    <= gates@[g].wire_out_id < wires@.len(),
            wires@.len() == old(wires)@.len(),
            gate_id <= gates@.len(),
            forall|w: int| 0 <= w < wires@.len() ==> !(#[trigger] wires@[w]).state,
            lists_ok(gates@, wires@, gate_id as int),
        decreases gates@.len() - gate_id,
    {
        let ghost before = wires@;
        let wire_out = gates[gate_id].wire_out_id as usize;
        let wire_in = gates[gate_id].wire_in_id as usize;
        wires[wire_out].gate_in_ids.push(gate_id as u32);
        wires[wire_in].gate_out_ids.push(gate_id as u32);
        proof {
            let after = wires@;
            let gi = gate_id as int;
            assert forall|w: int| 0 <= w < after.len() implies {
                &&& ascending((#[trigger] after[w]).gate_in_ids@)
                &&& ascending(after[w].gate_out_ids@)
                &&& forall|k: int| 0 <= k < after[w].gate_in_ids@.len() ==> after[w].gate_in_ids@[k] < gi + 1
                &&& forall|k: int| 0 <= k < after[w].gate_out_ids@.len() ==> after[w].gate_out_ids@[k] < gi + 1
            } by {
                let bi = before[w].gate_in_ids@;
                let bo = before[w].gate_out_ids@;
                assert(forall|k: int| 0 <= k < bi.len() ==> bi[k] < gi);
                assert(forall|k: int| 0 <= k < bo.len() ==> bo[k] < gi);
                if w == wire_out {
                    assert(after[w].gate_in_ids@ == bi.push(gate_id as u32));
                } else {
                    assert(after[w].gate_in_ids@ == bi);
                }
                if w == wire_in {
                    assert(after[w].gate_out_ids@ == bo.push(gate_id as u32));
                } else {
                    assert(after[w].gate_out_ids@ == bo);
                }
            }
            assert forall|w: int, g: int|
                0 <= w < after.len() && 0 <= g < gi + 1 implies (#[trigger] after[w]).gate_in_ids@.contains(
                g as u32,
            ) == ((#[trigger] gates@[g]).wire_out_id == w) by {
                if w == wire_out {
                    assert(after[w].gate_in_ids@ == before[w].gate_in_ids@.push(gate_id as u32));
                    if g == gi {
                        assert(after[w].gate_in_ids@[before[w].gate_in_ids@.len() as int] == g as u32);
                    } else if after[w].gate_in_ids@.contains(g as u32) {
                        let k = choose|k: int|
                            0 <= k < after[w].gate_in_ids@.len() && after[w].gate_in_ids@[k] == g as u32;
                        assert(before[w].gate_in_ids@.contains(g as u32)) by {
                            assert(k < before[w].gate_in_ids@.len());
                            assert(before[w].gate_in_ids@[k] == g as u32);
                        }
                    } else if before[w].gate_in_ids@.contains(g as u32) {
                        let k = choose|k: int|
                            0 <= k < before[w].gate_in_ids@.len() && before[w].gate_in_ids@[k] == g as u32;
                        assert(after[w].gate_in_ids@[k] == g as u32);
                    }
                } else {
                    assert(after[w].gate_in_ids@ == before[w].gate_in_ids@);
                    if g == gi && before[w].gate_in_ids@.contains(g as u32) {
                        let k = choose|k: int|
                            0 <= k < before[w].gate_in_ids@.len() && before[w].gate_in_ids@[k] == g as u32;
                        assert(before[w].gate_in_ids@[k] < gi);
                    }
                }
            }
            assert forall|w: int, g: int|
                0 <= w < after.len() && 0 <= g < gi + 1 implies (#[trigger] after[w]).gate_out_ids@.contains(
                g as u32,
            ) == ((#[trigger] gates@[g]).wire_in_id == w) by {
                if w == wire_in {
                    assert(after[w].gate_out_ids@ == before[w].gate_out_ids@.push(gate_id as u32));
                    if g == gi {
                        assert(after[w].gate_out_ids@[before[w].gate_out_ids@.len() as int] == g as u32);
                    } else if after[w].gate_out_ids@.contains(g as u32) {
                        let k = choose|k: int|
                            0 <= k < after[w].gate_out_ids@.len() && after[w].gate_out_ids@[k] == g as u32;
                        assert(before[w].gate_out_ids@.contains(g as u32)) by {
                            assert(k < before[w].gate_out_ids@.len());
                            assert(before[w].gate_out_ids@[k] == g as u32);
                        }
                    } else if before[w].gate_out_ids@.contains(g as u32) {
                        let k = choose|k: int|
                            0 <= k < before[w].gate_out_ids@.len() && before[w].gate_out_ids@[k] == g as u32;
                        assert(after[w].gate_out_ids@[k] == g as u32);
                    }
                } else {
                    assert(after[w].gate_out_ids@ == before[w].gate_out_ids@);
                    if g == gi && before[w].gate_out_ids@.contains(g as u32) {
                        let k = choose|k: int|
                            0 <= k < before[w].gate_out_ids@.len() && before[w].gate_out_ids@[k] == g as u32;
                        assert(before[w].gate_out_ids@[k] < gi);
                    }
                }
            }
        }
        gate_id = gate_id + 1;
    }
}

} // verus!
