use vstd::prelude::*;

verus! {

/// A sample in fixed point: `FULL_SCALE` units are one unit of full scale.
pub type Sample = i32;

/// Units of a sample that make one unit of full scale.
pub const FULL_SCALE: i32 = 1_000_000;

/// The least amplitude the waveform is normalised by (a thousandth of full
/// scale), so that silence does not blow the scale up.
pub const AMPLITUDE_FLOOR: i32 = 1_000;

/// Colour of a lit pixel (white).
pub const FOREGROUND: u32 = 0xFFFFFF;

/// Colour of an unlit pixel (black).
pub const BACKGROUND: u32 = 0;

/// The mathematical content of a renderer: the grid's dimensions and its
/// pixels, row-major from the top-left corner.
pub ghost struct Frame {
    pub width: nat,
    pub height: nat,
    pub pixels: Seq<u32>,
}

pub open spec fn abs(v: i32) -> int {
    if v < 0 { -(v as int) } else { v as int }
}

/// The largest magnitude in `s`, `0` for an empty sequence.
pub open spec fn peak(s: Seq<i32>) -> int
    decreases s.len(),
{
    if s.len() == 0 {
        0
    } else {
        let p = peak(s.drop_last());
        if abs(s.last()) > p { abs(s.last()) } else { p }
    }
}

/// The amplitude a batch is normalised by: its peak, floored at `AMPLITUDE_FLOOR`.
pub open spec fn norm_amplitude(s: Seq<i32>) -> int {
    if peak(s) < AMPLITUDE_FLOOR { AMPLITUDE_FLOOR as int } else { peak(s) }
}

/// The row of sample `v` on a grid of height `h`, amplitude `m` reaching the
/// edges: the sample is scaled by the real half-height, `v * (h / 2) / m`,
/// rounded, and placed from the centre row `half = floor(h / 2)`; the row is
/// `round(v * h / (2m) + half)` clamped to `0..h`. `n / (2m)` is
/// `floor(v * h / (2m) + half + 1/2)`; where `n` is negative the unclamped
/// row is below zero, so the sample sits on row `0`.
pub open spec fn row_of(v: i32, m: int, h: nat) -> int {
    let half = (h / 2) as int;
    let n = (v as int) * (h as int) + (2 * half + 1) * m;
    if n < 0 {
        0
    } else if n / (2 * m) < h {
        n / (2 * m)
    } else {
        h - 1
    }
}

/// Whether pixel `(x, y)` is lit for batch `s` on a grid of height `h` (the
/// grid's width bounds `x`): an empty batch lights the centre row; otherwise
/// column `x` holds sample `x` on its row, and columns past the batch stay
/// dark.
pub open spec fn lit(s: Seq<i32>, h: nat, x: int, y: int) -> bool {
    if s.len() == 0 {
        y == (h / 2) as int
    } else {
        x < s.len() && y == row_of(s[x], norm_amplitude(s), h)
    }
}

/// A `w` by `h` grid, row-major, whose pixel `(x, y)` is lit where `f(x, y)`.
pub open spec fn canvas(w: nat, h: nat, f: spec_fn(int, int) -> bool) -> Seq<u32> {
    Seq::new(w * h, |i: int| if f(i % (w as int), i / (w as int)) { FOREGROUND } else { BACKGROUND })
}

/// The grid that batch `s` rasterizes to on a `w` by `h` grid.
pub open spec fn grid(s: Seq<i32>, w: nat, h: nat) -> Seq<u32> {
    canvas(w, h, |x: int, y: int| lit(s, h, x, y))
}

/// The frame after rendering `s`: the dimensions stay, the pixels are those of
/// `s` alone.
pub open spec fn updated(f: Frame, s: Seq<i32>) -> Frame {
    Frame { width: f.width, height: f.height, pixels: grid(s, f.width, f.height) }
}

proof fn lemma_index(w: nat, h: nat, x: int, y: int)
    requires
        0 <= x < w,
        0 <= y < h,
    ensures
        0 <= y * w + x < w * h,
        (y * w + x) % (w as int) == x,
        (y * w + x) / (w as int) == y,
{
    assert(y * w + x < w * h) by (nonlinear_arith)
        requires
            0 <= x < w,
            0 <= y < h,
    ;
    assert(0 <= y * w) by (nonlinear_arith)
        requires
            0 <= y,
    ;
    vstd::arithmetic::div_mod::lemma_fundamental_div_mod_converse(y * w + x, w as int, y, x);
}

/// Lighting pixel `(x, y)` of a canvas gives the canvas of the predicate with
/// that pixel added.
proof fn lemma_plot(
    w: nat,
    h: nat,
    f: spec_fn(int, int) -> bool,
    g: spec_fn(int, int) -> bool,
    x: int,
    y: int,
)
    requires
        0 <= x < w,
        0 <= y < h,
        forall|a: int, b: int| #[trigger] g(a, b) == (f(a, b) || (a == x && b == y)),
    ensures
        0 <= y * w + x < w * h,
        canvas(w, h, f).update(y * w + x, FOREGROUND) =~= canvas(w, h, g),
{
    lemma_index(w, h, x, y);
    assert forall|i: int| 0 <= i < w * h && i != y * w + x implies #[trigger] canvas(w, h, f)[i]
        == canvas(w, h, g)[i] by {
        vstd::arithmetic::div_mod::lemma_fundamental_div_mod(i, w as int);
        if i % (w as int) == x && i / (w as int) == y {
            assert(i == w * y + x);
            assert(w * y == y * w) by (nonlinear_arith);
        }
    }
}

/// Two predicates that agree on every column `0..w` give the same canvas.
proof fn lemma_canvas_ext(w: nat, h: nat, f: spec_fn(int, int) -> bool, g: spec_fn(int, int) -> bool)
    requires
        forall|a: int, b: int| 0 <= a < w ==> #[trigger] f(a, b) == g(a, b),
    ensures
        canvas(w, h, f) =~= canvas(w, h, g),
{
    assert forall|i: int| 0 <= i < w * h implies #[trigger] canvas(w, h, f)[i] == canvas(
        w,
        h,
        g,
    )[i] by {
        if w > 0 {
            vstd::arithmetic::div_mod::lemma_mod_bound(i, w as int);
        } else {
            assert(w * h == 0);
        }
    }
}

/// The idle baseline: on any grid of at least one column and row, an empty
/// batch lights exactly the centre row `h / 2` and leaves every other row
/// background.
pub proof fn lemma_empty_batch_draws_centre_row(w: nat, h: nat)
    requires
        w >= 1,
        h >= 1,
    ensures
        grid(Seq::empty(), w, h).len() == w * h,
        forall|x: int, y: int|
            0 <= x < w && 0 <= y < h ==> #[trigger] grid(Seq::empty(), w, h)[y * w + x] == if y == h
                / 2 {
                FOREGROUND
            } else {
                BACKGROUND
            },
{
    assert forall|x: int, y: int| 0 <= x < w && 0 <= y < h implies #[trigger] grid(
        Seq::empty(),
        w,
        h,
    )[y * w + x] == if y == h / 2 {
        FOREGROUND
    } else {
        BACKGROUND
    } by {
        lemma_index(w, h, x, y);
    }
}

proof fn lemma_peak_of_zeros(k: nat)
    ensures
        peak(Seq::new(k, |i: int| 0i32)) == 0,
    decreases k,
{
    if k > 0 {
        assert(Seq::new(k, |i: int| 0i32).drop_last() =~= Seq::new((k - 1) as nat, |i: int| 0i32));
        lemma_peak_of_zeros((k - 1) as nat);
    }
}

/// Silence at least as long as the grid is wide draws the same centre line as
/// an empty batch: the amplitude floor keeps the scale finite, and a zero
/// sample sits on row `h / 2`. (A shorter run of zeros leaves the columns past
/// it dark, as every batch shorter than the grid does.)
pub proof fn lemma_silence_draws_centre_row(k: nat, w: nat, h: nat)
    requires
        k >= w,
        k >= 1,
    ensures
        grid(Seq::new(k, |i: int| 0i32), w, h) == grid(Seq::empty(), w, h),
{
    let z = Seq::new(k, |i: int| 0i32);
    lemma_peak_of_zeros(k);
    let m = AMPLITUDE_FLOOR as int;
    assert(norm_amplitude(z) == m);
    if h >= 1 {
        let half = (h / 2) as int;
        let n = (2 * half + 1) * m;
        assert(n == half * (2 * m) + m) by (nonlinear_arith)
            requires
                n == (2 * half + 1) * m,
        ;
        vstd::arithmetic::div_mod::lemma_fundamental_div_mod_converse(n, 2 * m, half, m);
        assert(row_of(0i32, m, h) == half);
        lemma_canvas_ext(w, h, |x: int, y: int| lit(z, h, x, y), |x: int, y: int| lit(Seq::empty(), h, x, y));
    } else {
        assert(grid(z, w, h) =~= grid(Seq::empty(), w, h));
    }
}

/// Rendering depends on the batch and the dimensions alone: rendering the same
/// batch twice gives the same frame as rendering it once.
pub proof fn lemma_update_idempotent(f: Frame, s: Seq<i32>)
    ensures
        updated(updated(f, s), s) == updated(f, s),
{
}

/// Rendering depends on the batch and the dimensions alone: two frames of the
/// same dimensions render a batch to the same pixels, whatever they held.
pub proof fn lemma_update_ignores_previous(f: Frame, g: Frame, s: Seq<i32>)
    requires
        f.width == g.width,
        f.height == g.height,
    ensures
        updated(f, s) == updated(g, s),
{
}

proof fn lemma_peak_concat(s: Seq<i32>, t: Seq<i32>)
    ensures
        peak(s + t) == if peak(t) > peak(s) { peak(t) } else { peak(s) },
        peak(s) >= 0,
    decreases t.len(),
{
    if t.len() == 0 {
        assert(s + t =~= s);
        lemma_peak_nonneg(s);
    } else {
        assert((s + t).drop_last() =~= s + t.drop_last());
        lemma_peak_concat(s, t.drop_last());
    }
}

proof fn lemma_peak_nonneg(s: Seq<i32>)
    ensures
        peak(s) >= 0,
    decreases s.len(),
{
    if s.len() > 0 {
        lemma_peak_nonneg(s.drop_last());
    }
}

/// Truncation: samples past the grid's width draw nothing. Appending samples
/// to a batch that already fills the width changes no pixel, as long as they
/// do not raise the peak amplitude the batch is normalised by.
pub proof fn lemma_samples_past_width_draw_nothing(s: Seq<i32>, extra: Seq<i32>, w: nat, h: nat)
    requires
        s.len() >= w,
        s.len() >= 1,
        peak(extra) <= peak(s),
    ensures
        grid(s + extra, w, h) == grid(s, w, h),
{
    lemma_peak_concat(s, extra);
    assert forall|a: int, b: int| 0 <= a < w implies #[trigger] lit(s + extra, h, a, b) == lit(
        s,
        h,
        a,
        b,
    ) by {
        assert((s + extra)[a] == s[a]);
    }
    lemma_canvas_ext(w, h, |x: int, y: int| lit(s + extra, h, x, y), |x: int, y: int| lit(s, h, x, y));
}

/// The row of a sample is a row of the grid.
fn sample_row(v: i32, m: i64, h: usize) -> (y: usize)
    requires
        AMPLITUDE_FLOOR <= m <= 0x8000_0000,
        h >= 1,
    ensures
        y == row_of(v, m as int, h as nat),
        y < h,
{
    let half: i128 = (h / 2) as i128;
    assert(-0x1_0000_0000_0000_0000_0000_0000 <= (v as int) * (h as int) <= 0x1_0000_0000_0000_0000_0000_0000)
        by (nonlinear_arith)
        requires
            -0x8000_0000 <= v <= 0x8000_0000,
            0 <= h <= 0x1_0000_0000_0000_0000,
    ;
    assert(0 <= (2 * half + 1) * m <= 0x1_0000_0000_0000_0000_0000_0000) by (nonlinear_arith)
        requires
            0 <= half <= 0x8000_0000_0000_0000,
            0 <= m <= 0x8000_0000,
    ;
    let n: i128 = (v as i128) * (h as i128) + (2 * half + 1) * (m as i128);
    if n < 0 {
        0
    } else {
        let q: u128 = (n as u128) / (2 * (m as u128));
        if q < h as u128 {
            q as usize
        } else {
            h - 1
        }
    }
}


/// The peak magnitude of a batch, floored at `AMPLITUDE_FLOOR`.
fn normalisation_amplitude(samples: &[i32]) -> (m: i64)
    ensures
        m == norm_amplitude(samples@),
        AMPLITUDE_FLOOR <= m <= 0x8000_0000,
{
    let mut p: i64 = 0;
    let mut i: usize = 0;
    while i < samples.len()
        invariant
            i <= samples@.len(),
            p == peak(samples@.take(i as int)),
            0 <= p <= 0x8000_0000,
        decreases samples@.len() - i,
    {
        let v = samples[i];
        let a: i64 = if v < 0 { -(v as i64) } else { v as i64 };
        assert(samples@.take(i + 1).drop_last() =~= samples@.take(i as int));
        if a > p {
            p = a;
        }
        i = i + 1;
    }
    assert(samples@.take(samples@.len() as int) =~= samples@);
    if p < AMPLITUDE_FLOOR as i64 {
        AMPLITUDE_FLOOR as i64
    } else {
        p
    }
}

/// A fixed-size pixel grid that a batch of samples is rasterized into.
pub struct Renderer {
    buffer: Vec<u32>,
    width: usize,
    height: usize,
}

impl View for Renderer {
    type V = Frame;

    closed spec fn view(&self) -> Frame {
        Frame { width: self.width as nat, height: self.height as nat, pixels: self.buffer@ }
    }
}

impl Renderer {
    /// The grid holds one pixel for each column and row.
    pub open spec fn wf(&self) -> bool {
        self@.pixels.len() == self@.width * self@.height
    }

    /// A `width` by `height` grid, all background.
    pub fn new(width: usize, height: usize) -> (r: Self)
        requires
            width * height <= usize::MAX,
        ensures
            r.wf(),
            r@ == (Frame {
                width: width as nat,
                height: height as nat,
                pixels: Seq::new((width * height) as nat, |i: int| BACKGROUND),
            }),
    {
        let n: usize = width * height;
        let mut buffer: Vec<u32> = Vec::with_capacity(n);
        let mut i: usize = 0;
        while i < n
            invariant
                i <= n,
                buffer@ =~= Seq::new(i as nat, |j: int| BACKGROUND),
            decreases n - i,
        {
            buffer.push(BACKGROUND);
            i = i + 1;
        }
        Renderer { buffer, width, height }
    }

    /// Lights pixel `(x, y)`.
    fn plot(&mut self, x: usize, y: usize, Ghost(f): Ghost<spec_fn(int, int) -> bool>, Ghost(g): Ghost<spec_fn(int, int) -> bool>)
        requires
            old(self).wf(),
            x < old(self)@.width,
            y < old(self)@.height,
            old(self)@.pixels == canvas(old(self)@.width, old(self)@.height, f),
            forall|a: int, b: int| #[trigger] g(a, b) == (f(a, b) || (a == x && b == y)),
        ensures
            final(self).wf(),
            final(self)@ == (Frame { pixels: canvas(old(self)@.width, old(self)@.height, g), ..old(self)@ }),
    {
        proof {
            lemma_plot(self@.width, self@.height, f, g, x as int, y as int);
        }
        let len = self.buffer.len();
        assert(y * self@.width + x < len);
        let i: usize = y * self.width + x;
        self.buffer.set(i, FOREGROUND);
    }

    /// Renders `samples` into the grid, replacing what it held: an empty batch
    /// draws the centre row; otherwise each of the first `width` samples lights
    /// one pixel of its column, at its row once the batch is normalised by its
    /// peak amplitude (at least `AMPLITUDE_FLOOR`). Samples past the width are
    /// not drawn, and columns past the batch stay dark.
    pub fn update(&mut self, samples: &[Sample])
        requires
            old(self).wf(),
            old(self)@.height >= 1,
        ensures
            final(self).wf(),
            final(self)@ == updated(old(self)@, samples@),
    {
        let w = self.width;
        let h = self.height;
        let ghost s = samples@;
        let ghost none = |a: int, b: int| false;
        let mut i: usize = 0;
        while i < self.buffer.len()
            invariant
                self.wf(),
                self@.width == w,
                self@.height == h,
                i <= self@.pixels.len(),
                forall|j: int| 0 <= j < i ==> self@.pixels[j] == BACKGROUND,
            decreases self@.pixels.len() - i,
        {
            self.buffer.set(i, BACKGROUND);
            i = i + 1;
        }
        assert(self@.pixels =~= canvas(w as nat, h as nat, none));
        if samples.len() == 0 {
            let middle = h / 2;
            let mut x: usize = 0;
            proof {
                lemma_canvas_ext(w as nat, h as nat, none, |a: int, b: int| a < 0 && b == middle);
            }
            while x < w
                invariant
                    self.wf(),
                    self@.width == w,
                    self@.height == h,
                    middle == h / 2,
                    h >= 1,
                    x <= w,
                    self@.pixels == canvas(w as nat, h as nat, |a: int, b: int| a < x && b == middle),
                decreases w - x,
            {
                let ghost f = |a: int, b: int| a < x && b == middle;
                let ghost g = |a: int, b: int| a < x + 1 && b == middle;
                self.plot(x, middle, Ghost(f), Ghost(g));
                x = x + 1;
            }
            proof {
                lemma_canvas_ext(w as nat, h as nat, |a: int, b: int| a < w && b == middle, |x: int, y: int| lit(s, h as nat, x, y));
            }
            return;
        }
        let m = normalisation_amplitude(samples);
        let n = if samples.len() < w { samples.len() } else { w };
        let mut x: usize = 0;
        proof {
            lemma_canvas_ext(w as nat, h as nat, none, |a: int, b: int| a < 0 && b == row_of(s[a], m as int, h as nat));
        }
        while x < n
            invariant
                self.wf(),
                self@.width == w,
                self@.height == h,
                h >= 1,
                x <= n,
                n <= w,
                n <= s.len(),
                s == samples@,
                m == norm_amplitude(s),
                AMPLITUDE_FLOOR <= m <= 0x8000_0000,
                self@.pixels == canvas(w as nat, h as nat, |a: int, b: int| a < x && b == row_of(s[a], m as int, h as nat)),
            decreases n - x,
        {
            let y = sample_row(samples[x], m, h);
            let ghost f = |a: int, b: int| a < x && b == row_of(s[a], m as int, h as nat);
            let ghost g = |a: int, b: int| a < x + 1 && b == row_of(s[a], m as int, h as nat);
            self.plot(x, y, Ghost(f), Ghost(g));
            x = x + 1;
        }
        proof {
            lemma_canvas_ext(
                w as nat,
                h as nat,
                |a: int, b: int| a < n && b == row_of(s[a], m as int, h as nat),
                |x: int, y: int| lit(s, h as nat, x, y),
            );
        }
    }

    /// The pixels, row-major from the top-left corner.
    pub fn get_buffer(&self) -> (r: &[u32])
        ensures
            r@ == self@.pixels,
    {
        self.buffer.as_slice()
    }
}

} // verus!
