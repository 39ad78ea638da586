//! Seam carving: the vertical seam of least total energy through an image.

use vstd::prelude::*;

verus! {

/// The energy of a pixel on the image border: that of a complete standout pixel.
pub const MAX_PIXEL_ENERGY: i32 = 255 * 255 * 3;

/// The largest energy a pixel can have: full colour gradients across and down.
pub const ENERGY_CAP: i32 = 2 * MAX_PIXEL_ENERGY;

/// The squared difference of two colour components.
fn component_gradient(a: u8, b: u8) -> (r: i32)
    ensures
        r == (a - b) * (a - b),
        0 <= r <= 65025,
{
    let d = a as i32 - b as i32;
    proof {
        assert(0 <= d * d <= 65025) by (nonlinear_arith)
            requires
                -255 <= d <= 255,
        ;
    }
    d * d
}

/// The energy of pixel `pixel` of a `width` by `height` image.
fn energy_of(width: usize, height: usize, pixels: &[Rgb], pixel: usize) -> (r: i32)
    requires
        width * height <= pixels@.len(),
        pixel < width * height,
    ensures
        r == pixel_energy(width as int, height as int, pixels@, pixel as int),
{
    let n = pixels.len();
    proof {
        assert(width >= 1 && height >= 1) by (nonlinear_arith)
            requires
                pixel < width * height,
        ;
        assert(width * (height - 1) + width == width * height) by (nonlinear_arith);
        assert(width * (height - 1) >= 0) by (nonlinear_arith)
            requires
                height >= 1,
        ;
        vstd::arithmetic::div_mod::lemma_mod_multiples_basic(height - 1, width as int);
        assert((height - 1) * width == width * (height - 1)) by (nonlinear_arith);
    }
    if pixel < width {
        // first row
        MAX_PIXEL_ENERGY
    } else if pixel > width * (height - 1) {
        // last row
        MAX_PIXEL_ENERGY
    } else if pixel % width == 0 {
        // first column
        MAX_PIXEL_ENERGY
    } else if (pixel + 1) % width == 0 {
        // last column
        MAX_PIXEL_ENERGY
    } else {
        proof {
            assert(pixel + width < width * height);
        }
        let x1 = pixels[pixel - 1];
        let x2 = pixels[pixel + 1];
        let energy_x = component_gradient(x1.r, x2.r) + component_gradient(x1.g, x2.g) + component_gradient(x1.b, x2.b);
        let y1 = pixels[pixel - width];
        let y2 = pixels[pixel + width];
        let energy_y = component_gradient(y1.r, y2.r) + component_gradient(y1.g, y2.g) + component_gradient(y1.b, y2.b);
        energy_x + energy_y
    }
}

/// A pixel's red, green and blue components.
#[derive(Clone, Copy, Debug, PartialEq, Eq, Structural)]
pub struct Rgb {
    pub r: u8,
    pub g: u8,
    pub b: u8,
}

/// The squared colour distance between two pixels.
pub open spec fn gradient(a: Rgb, b: Rgb) -> int {
    (a.r - b.r) * (a.r - b.r) + (a.g - b.g) * (a.g - b.g) + (a.b - b.b) * (a.b - b.b)
}

/// The energy of pixel `p` of a `w` by `h` image: `MAX_PIXEL_ENERGY` on the border, else
/// the squared colour differences of its left and right neighbours plus those of the
/// pixels above and below it.
pub open spec fn pixel_energy(w: int, h: int, pixels: Seq<Rgb>, p: int) -> int {
    if p < w || p > w * (h - 1) || p % w == 0 || (p + 1) % w == 0 {
        MAX_PIXEL_ENERGY as int
    } else {
        gradient(pixels[p - 1], pixels[p + 1]) + gradient(pixels[p - w], pixels[p + w])
    }
}

/// Energy of the pixel in row `r`, column `c` of an image `w` pixels wide.
pub open spec fn px(e: Seq<i32>, w: int, r: int, c: int) -> int {
    e[r * w + c] as int
}

/// The least total energy of a path from the top row down to row `r`, column `c`,
/// moving to the same column or a neighbouring one at each row.
pub open spec fn min_cost(e: Seq<i32>, w: int, r: nat, c: int) -> int
    decreases r,
{
    if r == 0 {
        px(e, w, 0, c)
    } else {
        let up = min_cost(e, w, (r - 1) as nat, c);
        let left = if c > 0 {
            min_cost(e, w, (r - 1) as nat, c - 1)
        } else {
            up
        };
        let right = if c < w - 1 {
            min_cost(e, w, (r - 1) as nat, c + 1)
        } else {
            up
        };
        px(e, w, r as int, c) + min2(left, min2(up, right))
    }
}

/// The smaller of two integers.
pub open spec fn min2(a: int, b: int) -> int {
    if a <= b {
        a
    } else {
        b
    }
}

/// The least cost of reaching row `r + 1`, column `c2` from the pixels of row `r` in
/// columns below `upto`; `i32::MAX` when none of them is a neighbour.
pub open spec fn relaxed(e: Seq<i32>, w: int, r: nat, c2: int, upto: int) -> int {
    let base = px(e, w, r as int + 1, c2);
    let a = if c2 > 0 && c2 - 1 < upto {
        min_cost(e, w, r, c2 - 1) + base
    } else {
        i32::MAX as int
    };
    let b = if c2 < upto {
        min_cost(e, w, r, c2) + base
    } else {
        i32::MAX as int
    };
    let d = if c2 < w - 1 && c2 + 1 < upto {
        min_cost(e, w, r, c2 + 1) + base
    } else {
        i32::MAX as int
    };
    min2(a, min2(b, d))
}

/// The pixel `prev` is in row `r - 1`, in the column of (`r`, `c`) or a neighbouring one,
/// and a cheapest path to (`r`, `c`) comes through it.
pub open spec fn is_best_parent(e: Seq<i32>, w: int, r: nat, c: int, prev: int) -> bool {
    let pc = prev - (r - 1) * w;
    &&& 0 <= pc < w
    &&& c - 1 <= pc <= c + 1
    &&& min_cost(e, w, (r - 1) as nat, pc) + px(e, w, r as int, c) == min_cost(e, w, r, c)
}

/// The pixel `prev` is in row `r`, in the column of (`r + 1`, `c2`) or a neighbouring one,
/// and reaching (`r + 1`, `c2`) through it costs `value`.
pub open spec fn parent_gives(e: Seq<i32>, w: int, r: nat, c2: int, prev: int, value: int) -> bool {
    let pc = prev - r * w;
    &&& 0 <= pc < w
    &&& c2 - 1 <= pc <= c2 + 1
    &&& min_cost(e, w, r, pc) + px(e, w, r as int + 1, c2) == value
}

/// Energies of the first `n` pixels lie in `0..=ENERGY_CAP`.
pub open spec fn energies_in_range(e: Seq<i32>, n: int) -> bool {
    forall|i: int| 0 <= i < n ==> 0 <= #[trigger] e[i] <= ENERGY_CAP
}

proof fn lemma_index(w: int, h: int, r: int, c: int)
    requires
        0 <= r < h,
        0 <= c < w,
    ensures
        0 <= r * w + c < h * w,
        (r + 1) * w == r * w + w,
        r * w >= 0,
{
    assert(r * w <= (h - 1) * w) by (nonlinear_arith)
        requires
            r <= h - 1,
            0 <= c < w,
    ;
    assert((h - 1) * w + w == h * w) by (nonlinear_arith);
    assert((r + 1) * w == r * w + w) by (nonlinear_arith);
    assert(r * w >= 0) by (nonlinear_arith)
        requires
            r >= 0,
            w >= 0,
    ;
}

/// A cheapest path down to row `r` costs between zero and `r + 1` full pixel energies.
proof fn lemma_min_cost_bounds(e: Seq<i32>, w: int, h: int, r: nat, c: int)
    requires
        w >= 1,
        r < h,
        0 <= c < w,
        energies_in_range(e, w * h),
    ensures
        0 <= min_cost(e, w, r, c) <= (r + 1) * ENERGY_CAP,
    decreases r,
{
    lemma_index(w, h, r as int, c);
    assert(0 <= e[r * w + c] <= ENERGY_CAP);
    assert(0 <= px(e, w, r as int, c) <= ENERGY_CAP);
    if r > 0 {
        let r1 = (r - 1) as nat;
        lemma_min_cost_bounds(e, w, h, r1, c);
        if c > 0 {
            lemma_min_cost_bounds(e, w, h, r1, c - 1);
        }
        if c < w - 1 {
            lemma_min_cost_bounds(e, w, h, r1, c + 1);
        }
        let up = min_cost(e, w, r1, c);
        let left = if c > 0 { min_cost(e, w, r1, c - 1) } else { up };
        let right = if c < w - 1 { min_cost(e, w, r1, c + 1) } else { up };
        assert(0 <= min2(left, min2(up, right)) <= (r1 + 1) * ENERGY_CAP);
        assert(min_cost(e, w, r, c) == px(e, w, r as int, c) + min2(left, min2(up, right)));
        assert((r + 1) * ENERGY_CAP == (r1 + 1) * ENERGY_CAP + ENERGY_CAP) by (nonlinear_arith)
            requires
                r == r1 + 1,
        ;
        assert(min_cost(e, w, r, c) <= (r + 1) * ENERGY_CAP);
    } else {
        assert(min_cost(e, w, r, c) == px(e, w, 0, c));
        assert((r + 1) * ENERGY_CAP == ENERGY_CAP) by (nonlinear_arith)
            requires
                r == 0,
        ;
    }
}

/// A cheapest path to a pixel costs no more than any way in from a neighbour above it.
proof fn lemma_min_cost_step(e: Seq<i32>, w: int, r: nat, c: int, pc: int)
    requires
        r > 0,
        0 <= c < w,
        0 <= pc < w,
        c - 1 <= pc <= c + 1,
    ensures
        min_cost(e, w, r, c) <= min_cost(e, w, (r - 1) as nat, pc) + px(e, w, r as int, c),
{
}

/// Every seam costs at least the cheapest path to the pixel it ends its first `k` rows at.
proof fn lemma_seam_lower_bound(e: Seq<i32>, s: Seq<usize>, w: int, h: int, k: int)
    requires
        is_seam(s, w, h),
        1 <= k <= h,
    ensures
        seam_energy(e, s, k) >= min_cost(e, w, (k - 1) as nat, seam_col(s, w, k - 1)),
    decreases k,
{
    let r = (k - 1) as nat;
    let c = seam_col(s, w, k - 1);
    assert(s[k - 1] as int == r * w + c);
    assert(seam_energy(e, s, k) == seam_energy(e, s, k - 1) + px(e, w, r as int, c));
    if k > 1 {
        let r0 = (k - 2) as nat;
        let c0 = seam_col(s, w, k - 2);
        lemma_seam_lower_bound(e, s, w, h, k - 1);
        assert(seam_energy(e, s, k - 1) >= min_cost(e, w, r0, c0));
        assert(-1 <= seam_col(s, w, (k - 2) + 1) - seam_col(s, w, k - 2) <= 1);
        assert(0 <= c0 < w);
        assert(0 <= c < w);
        lemma_min_cost_step(e, w, r, c, c0);
        assert((r - 1) as nat == r0);
    } else {
        assert(seam_energy(e, s, 0) == 0);
        assert(min_cost(e, w, 0, c) == px(e, w, 0, c));
    }
}

/// A seam that follows best parents costs exactly the cheapest path to where it ends.
proof fn lemma_seam_follows_parents(e: Seq<i32>, s: Seq<usize>, w: int, h: int, k: int)
    requires
        is_seam(s, w, h),
        1 <= k <= h,
        forall|i: int|
            1 <= i < h ==> #[trigger] is_best_parent(e, w, i as nat, seam_col(s, w, i), s[i - 1] as int),
    ensures
        seam_energy(e, s, k) == min_cost(e, w, (k - 1) as nat, seam_col(s, w, k - 1)),
    decreases k,
{
    let r = (k - 1) as nat;
    let c = seam_col(s, w, k - 1);
    assert(s[k - 1] as int == r * w + c);
    assert(seam_energy(e, s, k) == seam_energy(e, s, k - 1) + px(e, w, r as int, c));
    if k > 1 {
        let r0 = (k - 2) as nat;
        let c0 = seam_col(s, w, k - 2);
        lemma_seam_follows_parents(e, s, w, h, k - 1);
        assert(seam_energy(e, s, k - 1) == min_cost(e, w, r0, c0));
        assert(is_best_parent(e, w, r, c, s[k - 2] as int));
        assert((r - 1) as nat == r0);
        assert(s[k - 2] as int - (r - 1) * w == c0);
    } else {
        assert(seam_energy(e, s, 0) == 0);
        assert(min_cost(e, w, 0, c) == px(e, w, 0, c));
    }
}

/// The column of the pixel that seam `s` crosses row `i` at.
pub open spec fn seam_col(s: Seq<usize>, w: int, i: int) -> int {
    s[i] - i * w
}

/// `s` is a vertical seam of a `w` by `h` image: one pixel per row, each in the same or a
/// neighbouring column of the one above.
pub open spec fn is_seam(s: Seq<usize>, w: int, h: int) -> bool {
    &&& s.len() == h
    &&& forall|i: int| 0 <= i < h ==> 0 <= #[trigger] seam_col(s, w, i) < w
    &&& forall|i: int| 0 <= i < h - 1 ==> -1 <= #[trigger] seam_col(s, w, i + 1) - seam_col(s, w, i) <= 1
}

/// The total energy of the first `k` pixels of seam `s`.
pub open spec fn seam_energy(e: Seq<i32>, s: Seq<usize>, k: int) -> int
    decreases k,
{
    if k <= 0 {
        0
    } else {
        seam_energy(e, s, k - 1) + e[s[k - 1] as int] as int
    }
}

/// Reusable work space for finding seams of images of up to a given number of pixels.
pub struct Carver {
    pub energy: Vec<i32>,
    dist_to: Vec<i32>,
    prev_vertex: Vec<usize>,
}

impl Carver {
    /// The energy of each pixel, row by row.
    pub closed spec fn energies(&self) -> Seq<i32> {
        self.energy@
    }

    /// The number of pixels plus the two ends of the seam that the work space can hold.
    pub closed spec fn vertex_capacity(&self) -> nat {
        if self.dist_to@.len() <= self.prev_vertex@.len() {
            self.dist_to@.len()
        } else {
            self.prev_vertex@.len()
        }
    }

    /// A carver for images of `num_pixels` pixels, all energies zero.
    pub fn new(num_pixels: usize) -> (r: Carver)
        requires
            num_pixels <= usize::MAX - 2,
        ensures
            r.energies() == Seq::new(num_pixels as nat, |i: int| 0i32),
            r.vertex_capacity() == num_pixels + 2,
    {
        // An implicit graph: a fake source with an edge to each pixel of the first row,
        // an edge from each pixel to the up to three below it, and one from each pixel of
        // the last row to a fake destination.
        let vertex_count = num_pixels + 2;
        let r = Carver {
            energy: vec![0; num_pixels],
            dist_to: vec![i32::MAX; vertex_count],
            prev_vertex: vec![0; vertex_count],
        };
        assert(r.energy@ =~= Seq::new(num_pixels as nat, |i: int| 0i32));
        r
    }

    /// Computes the energy of each pixel of the `width` by `height` image `pixels`, or,
    /// given the seam just removed, of the two pixels on either side of where each of its
    /// pixels was; the work space then holds exactly the image's pixels.
    pub fn calculate_energy(&mut self, width: usize, height: usize, pixels: &[Rgb], seam_hint: Option<Vec<usize>>)
        requires
            width * height <= old(self).energies().len(),
            width * height <= pixels@.len(),
            seam_hint matches Some(seam) ==> forall|r: int|
                0 <= r < seam@.len() ==> 1 <= #[trigger] seam@[r] - r < width * height,
        ensures
            final(self).energies().len() == width * height,
            final(self).vertex_capacity() == old(self).vertex_capacity(),
            seam_hint is None ==> forall|p: int|
                0 <= p < width * height ==> #[trigger] final(self).energies()[p] == pixel_energy(
                    width as int,
                    height as int,
                    pixels@,
                    p,
                ),
            seam_hint matches Some(seam) ==> forall|p: int|
                0 <= p < width * height ==> #[trigger] final(self).energies()[p] == if exists|r: int|
                    0 <= r < seam@.len() && (p == seam@[r] - r || p == seam@[r] - r - 1) {
                    pixel_energy(width as int, height as int, pixels@, p)
                } else {
                    old(self).energies()[p] as int
                },
    {
        let available = self.energy.len();
        let num_pixels = width * height;
        self.energy.truncate(num_pixels);
        self.assert_capacity_matches_image_dimensions(width, height);
        let ghost start = self.energy@;
        match seam_hint {
            None => {
                let mut i: usize = 0;
                while i < num_pixels
                    invariant
                        i <= num_pixels,
                        num_pixels == width * height,
                        num_pixels <= pixels@.len(),
                        self.energy@.len() == num_pixels,
                        self.dist_to@.len() == old(self).dist_to@.len(),
                        self.prev_vertex@.len() == old(self).prev_vertex@.len(),
                        forall|p: int| 0 <= p < i ==> #[trigger] self.energy@[p] == pixel_energy(width as int, height as int, pixels@, p),
                    decreases num_pixels - i,
                {
                    let en = energy_of(width, height, pixels, i);
                    self.energy.set(i, en);
                    i += 1;
                }
            },
            Some(seam) => {
                let mut row: usize = 0;
                while row < seam.len()
                    invariant
                        row <= seam@.len(),
                        num_pixels == width * height,
                        num_pixels <= pixels@.len(),
                        start.len() == num_pixels,
                        self.energy@.len() == num_pixels,
                        self.dist_to@.len() == old(self).dist_to@.len(),
                        self.prev_vertex@.len() == old(self).prev_vertex@.len(),
                        forall|r: int| 0 <= r < seam@.len() ==> 1 <= #[trigger] seam@[r] - r < num_pixels,
                        forall|p: int| 0 <= p < num_pixels ==> #[trigger] self.energy@[p] == if exists|r: int|
                            0 <= r < row && (p == seam@[r] - r || p == seam@[r] - r - 1) {
                            pixel_energy(width as int, height as int, pixels@, p)
                        } else {
                            start[p] as int
                        },
                    decreases seam@.len() - row,
                {
                    let pixel = seam[row] - row;
                    let left = energy_of(width, height, pixels, pixel - 1);
                    self.energy.set(pixel - 1, left);
                    let here = energy_of(width, height, pixels, pixel);
                    self.energy.set(pixel, here);
                    proof {
                        assert forall|p: int| 0 <= p < num_pixels implies #[trigger] self.energy@[p] == if exists|r: int|
                            0 <= r < row + 1 && (p == seam@[r] - r || p == seam@[r] - r - 1) {
                            pixel_energy(width as int, height as int, pixels@, p)
                        } else {
                            start[p] as int
                        } by {
                            if p == pixel || p == pixel - 1 {
                                assert(0 <= row < row + 1 && (p == seam@[row as int] - row || p == seam@[row as int] - row - 1));
                            } else if exists|r: int| 0 <= r < row + 1 && (p == seam@[r] - r || p == seam@[r] - r - 1) {
                                let r = choose|r: int| 0 <= r < row + 1 && (p == seam@[r] - r || p == seam@[r] - r - 1);
                                assert(r != row);
                            }
                        }
                    }
                    row += 1;
                }
            },
        }
    }

    /// Relaxes the edge `from -> to`: reaching `to` through `from` replaces what is
    /// recorded for `to` when it is cheaper.
    fn relax(&mut self, from: usize, to: usize)
        requires
            from < old(self).dist_to@.len(),
            to < old(self).dist_to@.len(),
            to < old(self).prev_vertex@.len(),
            to < old(self).energy@.len(),
            i32::MIN <= old(self).dist_to@[from as int] + old(self).energy@[to as int] <= i32::MAX,
        ensures
            final(self).energy == old(self).energy,
            final(self).dist_to@ == old(self).dist_to@.update(
                to as int,
                min2(old(self).dist_to@[to as int] as int, old(self).dist_to@[from as int] + old(self).energy@[to as int]) as i32,
            ),
            final(self).prev_vertex@ == if old(self).dist_to@[to as int] > old(self).dist_to@[from as int] + old(self).energy@[to as int] {
                old(self).prev_vertex@.update(to as int, from)
            } else {
                old(self).prev_vertex@
            },
    {
        let candidate = self.dist_to[from] + self.energy[to];
        if self.dist_to[to] > candidate {
            self.dist_to.set(to, candidate);
            self.prev_vertex.set(to, from);
        }
    }

    fn assert_capacity_matches_image_dimensions(&self, width: usize, height: usize)
        requires
            width * height <= self.energies().len(),
    {
    }

    /// The vertical seam of least total energy of the `width` by `height` image whose
    /// pixel energies are the start of `self.energy`, row by row.
    pub fn find_seam(&mut self, width: usize, height: usize) -> (r: Vec<usize>)
        requires
            width >= 1,
            height >= 1,
            width * height <= old(self).energies().len(),
            width * height + 2 <= old(self).vertex_capacity(),
            height * ENERGY_CAP < i32::MAX,
            energies_in_range(old(self).energies(), width * height),
        ensures
            final(self).energies() == old(self).energies(),
            final(self).vertex_capacity() == old(self).vertex_capacity(),
            is_seam(r@, width as int, height as int),
            forall|s: Seq<usize>|
                is_seam(s, width as int, height as int) ==> seam_energy(old(self).energies(), r@, height as int)
                    <= #[trigger] seam_energy(old(self).energies(), s, height as int),
    {
        self.assert_capacity_matches_image_dimensions(width, height);
        let ghost e = self.energy@;
        let ghost w = width as int;
        let ghost h = height as int;
        let ghost dlen = self.dist_to@.len();
        let ghost plen = self.prev_vertex@.len();
        let capacity = self.dist_to.len();
        assert(width * height + 2 <= capacity);
        let num_pixels = width * height;
        let fake_src = num_pixels;
        let fake_dest = num_pixels + 1;
        let mut i: usize = 0;
        while i < num_pixels + 2
            invariant
                e == self.energy@,
                capacity == self.dist_to@.len(),
                i <= num_pixels + 2,
                num_pixels + 2 <= self.dist_to@.len(),
                self.dist_to@.len() == dlen,
                self.prev_vertex@.len() == plen,
                num_pixels + 2 <= self.prev_vertex@.len(),
                forall|k: int| 0 <= k < i ==> #[trigger] self.dist_to@[k] == i32::MAX,
            decreases num_pixels + 2 - i,
        {
            self.dist_to.set(i, i32::MAX);
            self.prev_vertex.set(i, 0);
            i += 1;
        }
        proof {
            lemma_index(w, h, 0, 0);
            assert(width <= num_pixels) by (nonlinear_arith)
                requires
                    num_pixels == width * height,
                    height >= 1,
            ;
        }
        // fake source pixel edges to each pixel in the first row
        let mut pixel: usize = 0;
        while pixel < width
            invariant
                e == self.energy@,
                pixel <= width,
                w == width,
                num_pixels == width * height,
                width <= num_pixels,
                num_pixels <= e.len(),
                num_pixels + 2 <= self.dist_to@.len(),
                self.dist_to@.len() == dlen,
                self.prev_vertex@.len() == plen,
                num_pixels + 2 <= self.prev_vertex@.len(),
                forall|c: int| 0 <= c < pixel ==> #[trigger] self.dist_to@[c] == min_cost(e, w, 0, c),
                forall|k: int| pixel <= k < num_pixels + 2 ==> #[trigger] self.dist_to@[k] == i32::MAX,
            decreases width - pixel,
        {
            self.dist_to.set(pixel, self.energy[pixel]);
            self.prev_vertex.set(pixel, fake_src);
            pixel += 1;
        }
        // each pixel in the image has an edge to the pixel below and the pixel to the left and right of that
        let mut row: usize = 0;
        while row + 1 < height
            invariant
                e == self.energy@,
                w == width,
                h == height,
                width >= 1,
                row + 1 <= height,
                num_pixels == width * height,
                num_pixels <= e.len(),
                energies_in_range(e, w * h),
                height * ENERGY_CAP < i32::MAX,
                num_pixels + 2 <= self.dist_to@.len(),
                self.dist_to@.len() == dlen,
                self.prev_vertex@.len() == plen,
                num_pixels + 2 <= self.prev_vertex@.len(),
                forall|r: int, c: int|
                    0 <= r <= row && 0 <= c < w ==> #[trigger] self.dist_to@[r * w + c] == min_cost(e, w, r as nat, c),
                forall|r: int, c: int|
                    1 <= r <= row && 0 <= c < w ==> #[trigger] is_best_parent(e, w, r as nat, c, self.prev_vertex@[r * w + c] as int),
                forall|k: int| (row + 1) * w <= k < num_pixels + 2 ==> #[trigger] self.dist_to@[k] == i32::MAX,
            decreases height - row,
        {
            proof {
                lemma_index(w, h, row as int, 0);
                lemma_index(w, h, row + 1, 0);
            }
            proof {
                lemma_index(w, h, row + 1, 0);
                assert((row + 2) * w <= h * w) by (nonlinear_arith)
                    requires
                        row + 2 <= h,
                        w >= 1,
                ;
                assert((row + 2) * w == (row + 1) * w + w) by (nonlinear_arith);
                assert(row * w + w == (row + 1) * w) by (nonlinear_arith);
                assert forall|c2: int| 0 <= c2 < w implies #[trigger] self.dist_to@[(row + 1) * w + c2] == relaxed(e, w, row as nat, c2, 0) by {
                    assert((row + 1) * w <= (row + 1) * w + c2 < num_pixels + 2);
                }
            }
            let base = row * width;
            let below = base + width;
            let mut col: usize = 0;
            while col < width
                invariant
                    e == self.energy@,
                    w == width,
                    h == height,
                    width >= 1,
                    row + 1 < height,
                    base == row * w,
                    below == (row + 1) * w,
                    base + w == below,
                    below + w == (row + 2) * w,
                    col <= width,
                    num_pixels == width * height,
                    below + width <= num_pixels,
                    num_pixels <= e.len(),
                    energies_in_range(e, w * h),
                    height * ENERGY_CAP < i32::MAX,
                    num_pixels + 2 <= self.dist_to@.len(),
                self.dist_to@.len() == dlen,
                self.prev_vertex@.len() == plen,
                    num_pixels + 2 <= self.prev_vertex@.len(),
                    forall|r: int, c: int|
                        0 <= r <= row && 0 <= c < w ==> #[trigger] self.dist_to@[r * w + c] == min_cost(e, w, r as nat, c),
                    forall|r: int, c: int|
                        1 <= r <= row && 0 <= c < w ==> #[trigger] is_best_parent(e, w, r as nat, c, self.prev_vertex@[r * w + c] as int),
                    forall|c2: int| 0 <= c2 < w ==> #[trigger] self.dist_to@[below + c2] == relaxed(e, w, row as nat, c2, col as int),
                    forall|c2: int|
                        0 <= c2 < w && self.dist_to@[below + c2] < i32::MAX ==> #[trigger] parent_gives(
                            e,
                            w,
                            row as nat,
                            c2,
                            self.prev_vertex@[below + c2] as int,
                            self.dist_to@[below + c2] as int,
                        ),
                    forall|k: int| (row + 2) * w <= k < num_pixels + 2 ==> #[trigger] self.dist_to@[k] == i32::MAX,
                decreases width - col,
            {
                let pixel = base + col;
                let ghost before = self.dist_to@;
                let ghost before_prev = self.prev_vertex@;
                proof {
                    lemma_index(w, h, row as int, col as int);
                    lemma_index(w, h, row + 1, col as int);
                    lemma_min_cost_bounds(e, w, h, row as nat, col as int);
                    assert(self.dist_to@[row * w + col] == min_cost(e, w, row as nat, col as int));
                    assert((row + 2) * ENERGY_CAP <= height * ENERGY_CAP) by (nonlinear_arith)
                        requires
                            row + 2 <= height,
                    ;
                    assert((row + 1) * ENERGY_CAP + ENERGY_CAP == (row + 2) * ENERGY_CAP) by (nonlinear_arith);
                }
                let ghost cost = min_cost(e, w, row as nat, col as int);
                if col > 0 {
                    proof {
                        assert(0 <= e[below + col - 1] <= ENERGY_CAP);
                    }
                    self.relax(pixel, below + col - 1);
                }
                proof {
                    assert(0 <= e[below + col] <= ENERGY_CAP);
                }
                self.relax(pixel, below + col);
                if col + 1 < width {
                    proof {
                        assert(0 <= e[below + col + 1] <= ENERGY_CAP);
                    }
                    self.relax(pixel, below + col + 1);
                }
                proof {
                    assert forall|c2: int| 0 <= c2 < w implies #[trigger] self.dist_to@[below + c2] == relaxed(e, w, row as nat, c2, col + 1) by {
                        assert(before[below + c2] == relaxed(e, w, row as nat, c2, col as int));
                        assert(px(e, w, row + 1, c2) == e[below + c2]);
                    }
                    assert forall|r: int, c: int| 0 <= r <= row && 0 <= c < w implies
                        #[trigger] self.dist_to@[r * w + c] == min_cost(e, w, r as nat, c) by {
                        lemma_index(w, row + 1, r, c);
                        assert(before[r * w + c] == self.dist_to@[r * w + c]);
                    }
                    assert forall|r: int, c: int| 1 <= r <= row && 0 <= c < w implies
                        #[trigger] is_best_parent(e, w, r as nat, c, self.prev_vertex@[r * w + c] as int) by {
                        lemma_index(w, row + 1, r, c);
                        assert(before_prev[r * w + c] == self.prev_vertex@[r * w + c]);
                    }
                    assert forall|c2: int| 0 <= c2 < w && self.dist_to@[below + c2] < i32::MAX implies #[trigger] parent_gives(
                        e,
                        w,
                        row as nat,
                        c2,
                        self.prev_vertex@[below + c2] as int,
                        self.dist_to@[below + c2] as int,
                    ) by {
                        assert(px(e, w, row + 1, c2) == e[below + c2]);
                        assert(base == row * w);
                        assert(pixel - row * w == col);
                        if c2 + 1 < col || c2 > col + 1 {
                            assert(self.prev_vertex@[below + c2] == before_prev[below + c2]);
                            assert(self.dist_to@[below + c2] == before[below + c2]);
                        }
                    }
                    assert forall|k: int| (row + 2) * w <= k < num_pixels + 2 implies #[trigger] self.dist_to@[k] == i32::MAX by {
                        assert(before[k] == self.dist_to@[k]);
                    }
                }
                col += 1;
            }
            proof {
                assert forall|c2: int| 0 <= c2 < w implies #[trigger] self.dist_to@[below + c2] == min_cost(e, w, (row + 1) as nat, c2) by {
                    assert(self.dist_to@[below + c2] == relaxed(e, w, row as nat, c2, w));
                    lemma_min_cost_bounds(e, w, h, row as nat, c2);
                    if c2 > 0 {
                        lemma_min_cost_bounds(e, w, h, row as nat, c2 - 1);
                    }
                    if c2 < w - 1 {
                        lemma_min_cost_bounds(e, w, h, row as nat, c2 + 1);
                    }
                    lemma_index(w, h, row + 1, c2);
                    assert(0 <= px(e, w, row + 1, c2) <= ENERGY_CAP);
                    assert((row + 1) * ENERGY_CAP + ENERGY_CAP < i32::MAX) by (nonlinear_arith)
                        requires
                            row + 2 <= height,
                            height * ENERGY_CAP < i32::MAX,
                    ;
                    assert(((row + 1) - 1) as nat == row as nat);
                }
                assert forall|r: int, c: int| 0 <= r <= row + 1 && 0 <= c < w implies
                    #[trigger] self.dist_to@[r * w + c] == min_cost(e, w, r as nat, c) by {
                    if r == row + 1 {
                        assert(self.dist_to@[below + c] == min_cost(e, w, (row + 1) as nat, c));
                    }
                }
                assert forall|r: int, c: int| 1 <= r <= row + 1 && 0 <= c < w implies
                    #[trigger] is_best_parent(e, w, r as nat, c, self.prev_vertex@[r * w + c] as int) by {
                    if r == row + 1 {
                        assert(self.dist_to@[below + c] == min_cost(e, w, (row + 1) as nat, c));
                        lemma_min_cost_bounds(e, w, h, (row + 1) as nat, c);
                        assert((row + 2) * ENERGY_CAP < i32::MAX) by (nonlinear_arith)
                            requires
                                row + 2 <= height,
                                height * ENERGY_CAP < i32::MAX,
                        ;
                        assert(parent_gives(e, w, row as nat, c, self.prev_vertex@[below + c] as int, self.dist_to@[below + c] as int));
                        assert(((row + 1) - 1) * w == row * w);
                    }
                }
            }
            row += 1;
        }
        // the last row's pixels each have an edge to the fake destination
        proof {
            lemma_index(w, h, h - 1, 0);
            assert((h - 1 + 1) * w == h * w);
            assert(row + 1 == h);
            assert((row + 1) * w == num_pixels) by (nonlinear_arith)
                requires
                    row + 1 == h,
                    num_pixels == width * height,
                    w == width,
                    h == height,
            ;
            assert(self.dist_to@[fake_dest as int] == i32::MAX);
        }
        let last = (height - 1) * width;
        let mut col: usize = 0;
        while col < width
            invariant
                e == self.energy@,
                w == width,
                h == height,
                width >= 1,
                last == (h - 1) * w,
                last + width == num_pixels,
                num_pixels == width * height,
                fake_dest == num_pixels + 1,
                col <= width,
                num_pixels + 2 <= plen,
                num_pixels + 2 <= self.dist_to@.len(),
                self.dist_to@.len() == dlen,
                self.prev_vertex@.len() == plen,
                energies_in_range(e, w * h),
                height * ENERGY_CAP < i32::MAX,
                forall|r: int, c: int|
                    0 <= r < h && 0 <= c < w ==> #[trigger] self.dist_to@[r * w + c] == min_cost(e, w, r as nat, c),
                forall|r: int, c: int|
                    1 <= r < h && 0 <= c < w ==> #[trigger] is_best_parent(e, w, r as nat, c, self.prev_vertex@[r * w + c] as int),
                col == 0 ==> self.dist_to@[fake_dest as int] == i32::MAX,
                col > 0 ==> {
                    let bc = self.prev_vertex@[fake_dest as int] - last;
                    &&& 0 <= bc < col
                    &&& self.dist_to@[fake_dest as int] == min_cost(e, w, (h - 1) as nat, bc)
                    &&& forall|c: int| 0 <= c < col ==> self.dist_to@[fake_dest as int] <= #[trigger] min_cost(e, w, (h - 1) as nat, c)
                },
            decreases width - col,
        {
            proof {
                lemma_index(w, h, h - 1, col as int);
                lemma_min_cost_bounds(e, w, h, (h - 1) as nat, col as int);
                assert((h - 1 + 1) * ENERGY_CAP == h * ENERGY_CAP);
                assert(self.dist_to@[(h - 1) * w + col] == min_cost(e, w, (h - 1) as nat, col as int));
            }
            let pixel = last + col;
            let ghost before = self.dist_to@;
            let ghost before_prev = self.prev_vertex@;
            if self.dist_to[fake_dest] > self.dist_to[pixel] {
                self.dist_to.set(fake_dest, self.dist_to[pixel]);
                self.prev_vertex.set(fake_dest, pixel);
            }
            proof {
                assert forall|r: int, c: int| 0 <= r < h && 0 <= c < w implies #[trigger] self.dist_to@[r * w + c] == min_cost(e, w, r as nat, c) by {
                    lemma_index(w, h, r, c);
                    assert(before[r * w + c] == self.dist_to@[r * w + c]);
                }
                assert forall|r: int, c: int| 1 <= r < h && 0 <= c < w implies #[trigger] is_best_parent(e, w, r as nat, c, self.prev_vertex@[r * w + c] as int) by {
                    lemma_index(w, h, r, c);
                    assert(before_prev[r * w + c] == self.prev_vertex@[r * w + c]);
                }
            }
            col += 1;
        }
        let ghost best_col = self.prev_vertex@[fake_dest as int] - last;
        let mut path: Vec<usize> = vec![0usize; height];
        let mut curr = self.prev_vertex[fake_dest];
        let mut i: usize = height;
        while i > 0
            invariant
                e == self.energy@,
                w == width,
                h == height,
                width >= 1,
                num_pixels == width * height,
                i <= height,
                path@.len() == height,
                self.prev_vertex@.len() == plen,
                num_pixels + 2 <= plen,
                forall|r: int, c: int|
                    1 <= r < h && 0 <= c < w ==> #[trigger] is_best_parent(e, w, r as nat, c, self.prev_vertex@[r * w + c] as int),
                i > 0 ==> 0 <= curr - (i - 1) * w < w,
                i == height ==> curr - (h - 1) * w == best_col,
                0 < i < height ==> is_best_parent(e, w, i as nat, seam_col(path@, w, i as int), curr as int),
                forall|k: int| i <= k < h ==> 0 <= #[trigger] seam_col(path@, w, k) < w,
                forall|k: int| i <= k < h - 1 ==> #[trigger] is_best_parent(e, w, (k + 1) as nat, seam_col(path@, w, k + 1), path@[k] as int),
                h - 1 >= i ==> seam_col(path@, w, h - 1) == best_col,
            decreases i,
        {
            let ghost before = path@;
            let ghost c = curr - (i - 1) * w;
            path.set(i - 1, curr);
            proof {
                lemma_index(w, h, i - 1, c);
                assert(seam_col(path@, w, i - 1) == c);
                assert forall|k: int| i - 1 <= k < h implies 0 <= #[trigger] seam_col(path@, w, k) < w by {
                    if k >= i {
                        assert(seam_col(path@, w, k) == seam_col(before, w, k));
                    }
                }
                assert forall|k: int| i - 1 <= k < h - 1 implies #[trigger] is_best_parent(e, w, (k + 1) as nat, seam_col(path@, w, k + 1), path@[k] as int) by {
                    assert(seam_col(path@, w, k + 1) == seam_col(before, w, k + 1));
                    if k >= i {
                        assert(path@[k] == before[k]);
                    }
                }
            }
            if i > 1 {
                proof {
                    assert(is_best_parent(e, w, (i - 1) as nat, c, self.prev_vertex@[(i - 1) * w + c] as int));
                }
                curr = self.prev_vertex[curr];
                proof {
                    assert(((i - 1) - 1) * w == (i - 2) * w);
                }
            }
            i -= 1;
        }
        proof {
            assert(is_seam(path@, w, h)) by {
                assert forall|k: int| 0 <= k < h - 1 implies -1 <= #[trigger] seam_col(path@, w, k + 1) - seam_col(path@, w, k) <= 1 by {
                    assert(is_best_parent(e, w, (k + 1) as nat, seam_col(path@, w, k + 1), path@[k] as int));
                    assert(path@[k] as int - k * w == seam_col(path@, w, k));
                    assert(((k + 1) - 1) * w == k * w);
                }
            }
            assert forall|k: int| 1 <= k < h implies #[trigger] is_best_parent(e, w, k as nat, seam_col(path@, w, k), path@[k - 1] as int) by {
                assert(is_best_parent(e, w, ((k - 1) + 1) as nat, seam_col(path@, w, (k - 1) + 1), path@[k - 1] as int));
            }
            lemma_seam_follows_parents(e, path@, w, h, h);
            assert forall|s: Seq<usize>| is_seam(s, w, h) implies seam_energy(e, path@, h) <= #[trigger] seam_energy(e, s, h) by {
                lemma_seam_lower_bound(e, s, w, h, h);
            }
        }
        path
    }
}

} // verus!
