//! The series that the dashboard shows: points as they were logged, and points
//! summarised into bins of equal width.
//!
//! Every floating point value is carried as its IEEE 754 bit pattern (`u32` for
//! single precision). Nothing here looks inside a pattern: the one computation
//! on values, the running moments of a bin, is handed in by the caller.
//! The horizontal coordinate of a bin is half of an integer, so it is held
//! doubled, as an exact `u64`.
use vstd::prelude::*;

verus! {

/// One scalar as it was logged.
#[derive(Debug)]
pub struct ScalarPoint {
    pub run_name: String,
    pub tag: String,
    pub step: u32,
    /// Bit pattern of the single precision value.
    pub value: u32,
}

/// A point, as text and numbers.
pub struct PointView {
    pub run: Seq<char>,
    pub tag: Seq<char>,
    pub step: u32,
    pub value: u32,
}

impl View for ScalarPoint {
    type V = PointView;

    open spec fn view(&self) -> PointView {
        PointView {
            run: self.run_name@,
            tag: self.tag@,
            step: self.step,
            value: self.value,
        }
    }
}

/// What the compute worker can be told.
#[derive(Debug)]
pub enum ControlMsg {
    NewPoint(ScalarPoint),
    ResetInterval(u32),
}

/// What one more value makes of a bin: the new mean, the new sum of squared
/// deviations, and the mean less and plus one standard deviation.
#[derive(Clone, Copy, Debug, PartialEq, Eq)]
pub struct Moments {
    pub mean: u32,
    pub m2: u32,
    pub lower: u32,
    pub upper: u32,
}

/// The value-level arithmetic of a bin: old mean, old sum of squared deviations,
/// number of values with the new one, and the new value, to the new moments.
pub type Kernel = spec_fn(u32, u32, u32, u32) -> Moments;

/// The executable `step` always returns what the function `g` gives.
pub open spec fn computes<F: Fn(u32, u32, u32, u32) -> Moments>(step: F, g: Kernel) -> bool {
    forall|mean: u32, m2: u32, n: u32, value: u32, out: Moments|
        call_ensures(step, (mean, m2, n, value), out) ==> out == g(mean, m2, n, value)
}

/// The executable `step` can be called on every argument.
pub open spec fn total<F: Fn(u32, u32, u32, u32) -> Moments>(step: F) -> bool {
    forall|mean: u32, m2: u32, n: u32, value: u32| call_requires(step, (mean, m2, n, value))
}

/// A kernel that ignores the values: whatever does not depend on the values can
/// be stated with it.
pub open spec fn blank() -> Kernel {
    |mean: u32, m2: u32, n: u32, value: u32| Moments { mean: 0, m2: 0, lower: 0, upper: 0 }
}

/// The bin that a step falls into.
pub open spec fn bin_of(step: u32, width: u32) -> int {
    step as int / width as int
}

/// The number of bins up to the one of the last point.
pub open spec fn bins_needed(points: Seq<(u32, u32)>, width: u32) -> int {
    bin_of(points.last().0, width) + 1
}

/// Twice the horizontal centre of bin `i`.
pub open spec fn doubled_center(i: int, width: u32) -> int {
    (2 * i + 1) * width
}

/// All of `points` fall into the first `n` bins.
pub open spec fn within(points: Seq<(u32, u32)>, width: u32, n: int) -> bool {
    forall|i: int| 0 <= i < points.len() ==> 0 <= bin_of((#[trigger] points[i]).0, width) < n
}

/// How many of `points` fall into bin `b`.
pub open spec fn hits(points: Seq<(u32, u32)>, width: u32, b: int) -> nat
    decreases points.len(),
{
    if points.len() == 0 {
        0
    } else {
        hits(points.drop_last(), width, b) + if bin_of(points.last().0, width) == b {
            1nat
        } else {
            0nat
        }
    }
}

/// `s` brought to length `n`: cut off, or filled up with `fill`.
pub open spec fn resized<T>(s: Seq<T>, n: int, fill: T) -> Seq<T> {
    Seq::new(
        n as nat,
        |i: int|
            if i < s.len() {
                s[i]
            } else {
                fill
            },
    )
}

/// The nearest bin at or before `i` that holds a value, or bin 0.
pub open spec fn source(count: Seq<u32>, i: int) -> int
    decreases i,
{
    if i <= 0 || count[i] != 0 {
        i
    } else {
        source(count, i - 1)
    }
}

/// The contents of a binned series.
#[verifier::ext_equal]
pub struct Bins {
    /// Doubled centre of each bin.
    pub x: Seq<u64>,
    /// The plotted line: doubled coordinate and mean.
    pub line: Seq<(u64, u32)>,
    pub lower: Seq<u32>,
    pub upper: Seq<u32>,
    pub m2: Seq<u32>,
    /// Number of values in each bin.
    pub count: Seq<u32>,
    /// Number of points that have been taken in.
    pub processed: nat,
}

/// The part of a binned series that does not depend on the values of its points.
#[verifier::ext_equal]
pub struct Layout {
    pub x: Seq<u64>,
    pub line_x: Seq<u64>,
    pub count: Seq<u32>,
    pub processed: nat,
}

impl Bins {
    pub open spec fn empty() -> Bins {
        Bins {
            x: Seq::empty(),
            line: Seq::empty(),
            lower: Seq::empty(),
            upper: Seq::empty(),
            m2: Seq::empty(),
            count: Seq::empty(),
            processed: 0,
        }
    }

    /// There is one entry of each kind per bin.
    pub open spec fn wf(self) -> bool {
        &&& self.x.len() == self.lower.len()
        &&& self.line.len() == self.lower.len()
        &&& self.upper.len() == self.lower.len()
        &&& self.m2.len() == self.lower.len()
        &&& self.count.len() == self.lower.len()
    }

    /// The part that does not depend on the values of the points.
    pub open spec fn layout(self) -> Layout {
        Layout {
            x: self.x,
            line_x: Seq::new(self.line.len(), |i: int| self.line[i].0),
            count: self.count,
            processed: self.processed,
        }
    }

    /// At least `n` bins; new ones start out at zero, and their arrival sets all
    /// centres.
    pub open spec fn grown(self, n: int, width: u32) -> Bins {
        if self.lower.len() < n {
            Bins {
                x: Seq::new(n as nat, |i: int| doubled_center(i, width) as u64),
                line: resized(self.line, n, (0u64, 0u32)),
                lower: resized(self.lower, n, 0u32),
                upper: resized(self.upper, n, 0u32),
                m2: resized(self.m2, n, 0u32),
                count: resized(self.count, n, 0u32),
                processed: self.processed,
            }
        } else {
            self
        }
    }

    /// One more point, in its bin.
    pub open spec fn with_point(self, g: Kernel, p: (u32, u32), width: u32) -> Bins {
        let b = bin_of(p.0, width);
        let n = (self.count[b] + 1) as u32;
        let m = g(self.line[b].1, self.m2[b], n, p.1);
        Bins {
            line: self.line.update(b, (self.x[b], m.mean)),
            lower: self.lower.update(b, m.lower),
            upper: self.upper.update(b, m.upper),
            m2: self.m2.update(b, m.m2),
            count: self.count.update(b, n),
            ..self
        }
    }

    /// More points, in order.
    pub open spec fn with_points(self, g: Kernel, points: Seq<(u32, u32)>, width: u32) -> Bins
        decreases points.len(),
    {
        if points.len() == 0 {
            self
        } else {
            self.with_points(g, points.drop_last(), width).with_point(g, points.last(), width)
        }
    }

    /// Bin `i` is one of the first `n`, is not the first, and holds no value.
    pub open spec fn inherits(self, n: int, i: int) -> bool {
        1 <= i < n && self.count[i] == 0
    }

    /// Every empty bin among the first `n` (but for bin 0) shows what the nearest
    /// filled bin before it shows, at its own centre.
    pub open spec fn carried(self, n: int) -> Bins {
        Bins {
            line: Seq::new(
                self.line.len(),
                |i: int|
                    if self.inherits(n, i) {
                        (self.x[i], self.line[source(self.count, i)].1)
                    } else {
                        self.line[i]
                    },
            ),
            lower: Seq::new(
                self.lower.len(),
                |i: int|
                    if self.inherits(n, i) {
                        self.lower[source(self.count, i)]
                    } else {
                        self.lower[i]
                    },
            ),
            upper: Seq::new(
                self.upper.len(),
                |i: int|
                    if self.inherits(n, i) {
                        self.upper[source(self.count, i)]
                    } else {
                        self.upper[i]
                    },
            ),
            ..self
        }
    }

    /// All of `points` have been taken in before.
    pub open spec fn up_to_date(self, points: Seq<(u32, u32)>) -> bool {
        points.len() == 0 || self.processed >= points.len()
    }

    /// The series after it has taken in what is new in `points`.
    pub open spec fn updated(self, g: Kernel, points: Seq<(u32, u32)>, width: u32) -> Bins {
        if self.up_to_date(points) {
            self
        } else {
            let n = bins_needed(points, width);
            let fresh = points.skip(self.processed as int);
            Bins {
                processed: points.len(),
                ..self.grown(n, width).with_points(g, fresh, width).carried(n)
            }
        }
    }

    /// The number of bins once there are at least `n`.
    pub open spec fn room(self, n: int) -> int {
        if self.lower.len() < n {
            n
        } else {
            self.lower.len() as int
        }
    }

    /// The new points have a bin: the width is not zero, the number of bins and
    /// the number of values in each can be counted in 32 bits, and no new point
    /// lies beyond the bins there are and those up to the last point.
    pub open spec fn admits(self, points: Seq<(u32, u32)>, width: u32) -> bool {
        self.up_to_date(points) || {
            let n = bins_needed(points, width);
            let fresh = points.skip(self.processed as int);
            &&& width > 0
            &&& n <= u32::MAX
            &&& within(fresh, width, self.room(n))
            &&& forall|b: int|
                0 <= b < self.room(n) ==> self.grown(n, width).count[b] + #[trigger] hits(
                    fresh,
                    width,
                    b,
                ) <= u32::MAX
        }
    }
}

/// A series summarised into bins.
#[derive(Debug)]
pub struct BinnedData {
    /// Doubled centre of each bin.
    pub x_coords: Vec<u64>,
    /// Doubled horizontal coordinate and mean, for the plotted line.
    pub line_coords: Vec<(u64, u32)>,
    pub lowers: Vec<u32>,
    pub uppers: Vec<u32>,
    /// Sum of squared deviations from the mean.
    pub m2: Vec<u32>,
    /// Number of values in each bin.
    pub num_elements: Vec<u32>,
    /// Number of points that have been taken in.
    pub processed_upto: usize,
}

impl View for BinnedData {
    type V = Bins;

    open spec fn view(&self) -> Bins {
        Bins {
            x: self.x_coords@,
            line: self.line_coords@,
            lower: self.lowers@,
            upper: self.uppers@,
            m2: self.m2@,
            count: self.num_elements@,
            processed: self.processed_upto as nat,
        }
    }
}

impl Default for BinnedData {
    fn default() -> (r: Self)
        ensures
            r@ == Bins::empty(),
    {
        BinnedData {
            x_coords: Vec::new(),
            line_coords: Vec::new(),
            lowers: Vec::new(),
            uppers: Vec::new(),
            m2: Vec::new(),
            num_elements: Vec::new(),
            processed_upto: 0,
        }
    }
}

pub proof fn lemma_center_bound(i: int, n: int, width: u32)
    requires
        0 <= i < n,
        0 < width,
        (n - 1) * width <= u32::MAX,
    ensures
        i <= u32::MAX,
        0 <= doubled_center(i, width) <= 3 * u32::MAX,
{
    assert(i * width <= (n - 1) * width) by (nonlinear_arith)
        requires
            0 <= i <= n - 1,
    ;
    assert(i <= i * width) by (nonlinear_arith)
        requires
            0 <= i,
            0 < width,
    ;
    assert((2 * i + 1) * width == 2 * (i * width) + width) by (nonlinear_arith);
}

impl BinnedData {
    /// Makes room for `n` bins.
    fn grow(&mut self, n: usize, width: u32)
        requires
            old(self)@.wf(),
            0 < width,
            (n - 1) * width <= u32::MAX,
        ensures
            final(self)@.wf(),
            final(self)@ == old(self)@.grown(n as int, width),
    {
        if self.lowers.len() < n {
            self.lowers.resize(n, 0);
            self.uppers.resize(n, 0);
            self.m2.resize(n, 0);
            self.num_elements.resize(n, 0);
            self.x_coords.resize(n, 0);
            assert(self.lowers@ =~= resized(old(self)@.lower, n as int, 0u32));
            assert(self.uppers@ =~= resized(old(self)@.upper, n as int, 0u32));
            assert(self.m2@ =~= resized(old(self)@.m2, n as int, 0u32));
            assert(self.num_elements@ =~= resized(old(self)@.count, n as int, 0u32));
            while self.line_coords.len() < n
                invariant
                    old(self)@.line.len() <= self.line_coords@.len() <= n,
                    self.line_coords@ =~= resized(
                        old(self)@.line,
                        self.line_coords@.len() as int,
                        (0u64, 0u32),
                    ),
                    self.lowers@ == resized(old(self)@.lower, n as int, 0u32),
                    self.uppers@ == resized(old(self)@.upper, n as int, 0u32),
                    self.m2@ == resized(old(self)@.m2, n as int, 0u32),
                    self.num_elements@ == resized(old(self)@.count, n as int, 0u32),
                    self.x_coords.len() == n,
                    self.processed_upto == old(self).processed_upto,
                decreases n - self.line_coords.len(),
            {
                self.line_coords.push((0, 0));
            }
            let ghost grown = *self;
            let mut i: usize = 0;
            while i < n
                invariant
                    i <= n,
                    0 < width,
                    (n - 1) * width <= u32::MAX,
                    self.x_coords.len() == n,
                    forall|j: int|
                        0 <= j < i ==> self.x_coords@[j] == doubled_center(j, width) as u64,
                    self.lowers == grown.lowers,
                    self.uppers == grown.uppers,
                    self.m2 == grown.m2,
                    self.num_elements == grown.num_elements,
                    self.line_coords == grown.line_coords,
                    self.processed_upto == grown.processed_upto,
                decreases n - i,
            {
                proof {
                    lemma_center_bound(i as int, n as int, width);
                    assert((2 * i + 1) * width == doubled_center(i as int, width));
                }
                self.x_coords[i] = (2 * (i as u64) + 1) * (width as u64);
                i += 1;
            }
            proof {
                let want = old(self)@.grown(n as int, width);
                assert(self@.x =~= want.x);
            }
        }
    }
}

/// Taking in a point keeps the number of bins and their centres, and what it does
/// to the layout depends on the layout alone.
pub proof fn lemma_point_layout(a: Bins, b: Bins, g: Kernel, h: Kernel, p: (u32, u32), width: u32)
    requires
        a.wf(),
        b.wf(),
        a.layout() == b.layout(),
        0 <= bin_of(p.0, width) < a.lower.len(),
    ensures
        a.with_point(g, p, width).wf(),
        a.with_point(g, p, width).lower.len() == a.lower.len(),
        a.with_point(g, p, width).layout() == b.with_point(h, p, width).layout(),
{
    let i = bin_of(p.0, width);
    let la = a.layout();
    let lb = b.layout();
    assert(la.line_x.len() == lb.line_x.len());
    let na = a.with_point(g, p, width).layout();
    let nb = b.with_point(h, p, width).layout();
    assert(na.line_x =~= la.line_x.update(i, a.x[i]));
    assert(nb.line_x =~= lb.line_x.update(i, b.x[i]));
}

/// Every point of a prefix of `points` counts among `points`.
pub proof fn lemma_hits_prefix(points: Seq<(u32, u32)>, width: u32, b: int, k: int)
    requires
        0 <= k <= points.len(),
    ensures
        hits(points.take(k), width, b) <= hits(points, width, b),
    decreases points.len() - k,
{
    if k < points.len() {
        lemma_hits_prefix(points, width, b, k + 1);
        assert(points.take(k + 1).drop_last() =~= points.take(k));
    } else {
        assert(points.take(k) =~= points);
    }
}

pub proof fn lemma_bin_nonneg(step: u32, width: u32)
    requires
        width > 0,
    ensures
        0 <= bin_of(step, width) <= step,
{
    vstd::arithmetic::div_mod::lemma_div_pos_is_pos(step as int, width as int);
    vstd::arithmetic::div_mod::lemma_div_is_ordered_by_denominator(step as int, 1, width as int);
}

pub proof fn lemma_source_range(count: Seq<u32>, i: int)
    requires
        0 <= i,
    ensures
        0 <= source(count, i) <= i,
    decreases i,
{
    if i > 0 && count[i] == 0 {
        lemma_source_range(count, i - 1);
    }
}

impl BinnedData {
    /// Takes in one point.
    fn add_point<F: Fn(u32, u32, u32, u32) -> Moments>(
        &mut self,
        p: (u32, u32),
        width: u32,
        step: &F,
    )
        requires
            old(self)@.wf(),
            total(*step),
            width > 0,
            bin_of(p.0, width) < old(self)@.lower.len(),
            old(self)@.count[bin_of(p.0, width)] < u32::MAX,
        ensures
            final(self)@.layout() == old(self)@.with_point(blank(), p, width).layout(),
            final(self)@.wf(),
            forall|g: Kernel| #[trigger]
                computes(*step, g) ==> final(self)@ == old(self)@.with_point(g, p, width),
    {
        proof {
            lemma_bin_nonneg(p.0, width);
        }
        let b: usize = (p.0 / width) as usize;
        assert(b == bin_of(p.0, width));
        let n: u32 = self.num_elements[b] + 1;
        self.num_elements[b] = n;
        let m = step(self.line_coords[b].1, self.m2[b], n, p.1);
        self.m2[b] = m.m2;
        self.uppers[b] = m.upper;
        self.lowers[b] = m.lower;
        let x: u64 = self.x_coords[b];
        self.line_coords[b] = (x, m.mean);
        proof {
            let g: Kernel = |mean: u32, m2: u32, n: u32, value: u32| m;
            assert(self@ == old(self)@.with_point(g, p, width));
            lemma_point_layout(old(self)@, old(self)@, g, blank(), p, width);
        }
    }

    /// Lets empty bins show what the bin before them shows.
    fn carry_forward(&mut self, n: usize)
        requires
            old(self)@.wf(),
            n <= old(self)@.lower.len(),
        ensures
            final(self)@.wf(),
            final(self)@ == old(self)@.carried(n as int),
    {
        let ghost start = self@;
        let mut i: usize = 1;
        while i < n
            invariant
                1 <= i,
                n <= start.lower.len(),
                start.wf(),
                self@.wf(),
                self@ == start.carried(if i < n { i as int } else { n as int }),
            decreases n - i,
        {
            proof {
                lemma_source_range(start.count, i - 1);
                lemma_source_range(start.count, i as int);
            }
            if self.num_elements[i] == 0 {
                self.lowers[i] = self.lowers[i - 1];
                self.uppers[i] = self.uppers[i - 1];
                let x: u64 = self.x_coords[i];
                let mean: u32 = self.line_coords[i - 1].1;
                self.line_coords[i] = (x, mean);
                assert(source(start.count, i as int) == source(start.count, i - 1));
                assert(i - 1 == 0 || start.count[i - 1] != 0 ==> source(start.count, i - 1) == i
                    - 1);
            }
            i += 1;
            proof {
                assert(self@.line =~= start.carried(i as int).line);
                assert(self@.lower =~= start.carried(i as int).lower);
                assert(self@.upper =~= start.carried(i as int).upper);
            }
        }
        proof {
            assert(n <= 1 ==> self@ =~= start.carried(n as int));
        }
    }
}

/// Taking in points keeps the number of bins, and what it does to the layout does
/// not depend on the kernel.
pub proof fn lemma_points_layout(s: Bins, g: Kernel, h: Kernel, points: Seq<(u32, u32)>, width: u32)
    requires
        s.wf(),
        within(points, width, s.lower.len() as int),
    ensures
        s.with_points(g, points, width).wf(),
        s.with_points(g, points, width).lower.len() == s.lower.len(),
        s.with_points(g, points, width).x == s.x,
        s.with_points(g, points, width).processed == s.processed,
        s.with_points(g, points, width).layout() == s.with_points(h, points, width).layout(),
    decreases points.len(),
{
    if points.len() > 0 {
        let rest = points.drop_last();
        assert(within(rest, width, s.lower.len() as int)) by {
            assert forall|i: int| 0 <= i < rest.len() implies 0 <= bin_of(
                (#[trigger] rest[i]).0,
                width,
            ) < s.lower.len() by {
                assert(rest[i] == points[i]);
            }
        }
        assert(points[points.len() - 1] == points.last());
        lemma_points_layout(s, g, h, rest, width);
        lemma_points_layout(s, h, g, rest, width);
        lemma_point_layout(
            s.with_points(g, rest, width),
            s.with_points(h, rest, width),
            g,
            h,
            points.last(),
            width,
        );
    }
}

/// Taking in points adds to each bin's count the number of points that fall
/// into it.
pub proof fn lemma_points_count(s: Bins, g: Kernel, points: Seq<(u32, u32)>, width: u32, b: int)
    requires
        s.wf(),
        within(points, width, s.lower.len() as int),
        0 <= b < s.lower.len(),
        s.count[b] + hits(points, width, b) <= u32::MAX,
    ensures
        s.with_points(g, points, width).count[b] == s.count[b] + hits(points, width, b),
    decreases points.len(),
{
    if points.len() > 0 {
        let rest = points.drop_last();
        assert forall|i: int| 0 <= i < rest.len() implies 0 <= bin_of((#[trigger] rest[i]).0, width)
            < s.lower.len() by {
            assert(rest[i] == points[i]);
        }
        assert(points[points.len() - 1] == points.last());
        lemma_points_count(s, g, rest, width, b);
        lemma_points_layout(s, g, g, rest, width);
    }
}

/// What carrying forward does to the layout depends on the layout alone.
pub proof fn lemma_carried_layout(a: Bins, b: Bins, n: int)
    requires
        a.wf(),
        b.wf(),
        a.layout() == b.layout(),
    ensures
        a.carried(n).wf(),
        a.carried(n).layout() == b.carried(n).layout(),
{
    let la = a.layout();
    let lb = b.layout();
    assert(la.line_x.len() == lb.line_x.len());
    assert forall|i: int| 0 <= i < a.line.len() implies #[trigger] a.line[i].0 == b.line[i].0 by {
        assert(la.line_x[i] == a.line[i].0 && lb.line_x[i] == b.line[i].0);
    }
    assert(a.carried(n).layout().line_x =~= b.carried(n).layout().line_x);
}

impl BinnedData {
    /// Takes in what is new in `raw_data`: makes the bins up to that of the last
    /// point, puts each new point into its bin, and lets empty bins show what the
    /// bin before them shows.
    pub fn update_incrementally<F: Fn(u32, u32, u32, u32) -> Moments>(
        &mut self,
        raw_data: &[(u32, u32)],
        bin_width: u32,
        step: &F,
    )
        requires
            old(self)@.wf(),
            total(*step),
            old(self)@.admits(raw_data@, bin_width),
        ensures
            final(self)@.wf(),
            final(self)@.layout() == old(self)@.updated(blank(), raw_data@, bin_width).layout(),
            forall|g: Kernel| #[trigger]
                computes(*step, g) ==> final(self)@ == old(self)@.updated(g, raw_data@, bin_width),
    {
        if raw_data.len() == 0 || self.processed_upto >= raw_data.len() {
            return ;
        }
        let last_step: u32 = raw_data[raw_data.len() - 1].0;
        let ghost n = bins_needed(raw_data@, bin_width);
        let ghost fresh = raw_data@.skip(self.processed_upto as int);
        proof {
            lemma_bin_nonneg(last_step, bin_width);
            assert(bin_of(last_step, bin_width) * bin_width <= last_step) by {
                vstd::arithmetic::div_mod::lemma_fundamental_div_mod(
                    last_step as int,
                    bin_width as int,
                );
                assert(bin_of(last_step, bin_width) * bin_width == bin_width * bin_of(
                    last_step,
                    bin_width,
                )) by (nonlinear_arith);
            }
        }
        let required_bins: usize = (last_step / bin_width + 1) as usize;
        assert(required_bins == n);
        self.grow(required_bins, bin_width);
        let ghost base = self@;
        let start: usize = self.processed_upto;
        let mut i: usize = start;
        proof {
            assert(fresh.take(0) =~= Seq::empty());
        }
        while i < raw_data.len()
            invariant
                start <= i <= raw_data.len(),
                start == base.processed,
                fresh == raw_data@.skip(start as int),
                base.wf(),
                self@.wf(),
                self@.lower.len() == base.lower.len(),
                self@.processed == base.processed,
                total(*step),
                bin_width > 0,
                within(fresh, bin_width, base.lower.len() as int),
                forall|b: int|
                    0 <= b < base.lower.len() ==> base.count[b] + #[trigger] hits(
                        fresh,
                        bin_width,
                        b,
                    ) <= u32::MAX,
                self@.layout() == base.with_points(
                    blank(),
                    fresh.take(i - start),
                    bin_width,
                ).layout(),
                forall|g: Kernel| #[trigger]
                    computes(*step, g) ==> self@ == base.with_points(
                        g,
                        fresh.take(i - start),
                        bin_width,
                    ),
            decreases raw_data.len() - i,
        {
            let ghost before = self@;
            let ghost k = i - start;
            let p: (u32, u32) = raw_data[i];
            let ghost blanked = base.with_points(blank(), fresh.take(k), bin_width);
            proof {
                let b = bin_of(p.0, bin_width);
                assert(fresh[k] == p);
                assert(fresh.take(k + 1).drop_last() =~= fresh.take(k));
                assert(fresh.take(k + 1).last() == p);
                assert(within(fresh.take(k), bin_width, base.lower.len() as int)) by {
                    assert forall|j: int| 0 <= j < k implies 0 <= bin_of(
                        (#[trigger] fresh.take(k)[j]).0,
                        bin_width,
                    ) < base.lower.len() by {
                        assert(fresh.take(k)[j] == fresh[j]);
                    }
                }
                lemma_hits_prefix(fresh, bin_width, b, k + 1);
                lemma_points_count(base, blank(), fresh.take(k), bin_width, b);
                lemma_points_layout(base, blank(), blank(), fresh.take(k), bin_width);
                assert(before.count == before.layout().count);
                assert(blanked.count == blanked.layout().count);
            }
            self.add_point(p, bin_width, step);
            proof {
                lemma_point_layout(before, blanked, blank(), blank(), p, bin_width);
                assert(self@.lower.len() == self@.count.len());
                assert(self@.layout().count == before.with_point(blank(), p, bin_width).layout().count);
                assert(self@.layout().processed == before.with_point(blank(), p, bin_width).layout().processed);
            }
            i += 1;
        }
        let ghost filled = self@;
        proof {
            assert(fresh.take(fresh.len() as int) =~= fresh);
            lemma_points_layout(base, blank(), blank(), fresh, bin_width);
            lemma_carried_layout(filled, base.with_points(blank(), fresh, bin_width), n);
        }
        self.carry_forward(required_bins);
        self.processed_upto = raw_data.len();
        proof {
            let blank_end = base.with_points(blank(), fresh, bin_width).carried(n);
            assert(filled.carried(n).layout() == blank_end.layout());
            let want = old(self)@.updated(blank(), raw_data@, bin_width);
            assert(want.line == blank_end.line);
            assert(self@.layout().line_x == filled.carried(n).layout().line_x);
            assert(filled.carried(n).layout().x == blank_end.layout().x);
            assert(filled.carried(n).layout().line_x == blank_end.layout().line_x);
            assert(filled.carried(n).layout().count == blank_end.layout().count);
            assert(self@.layout() == want.layout());
        }
    }
}

impl BinnedData {
    /// Whether `update_incrementally` can take in `raw_data`.
    pub fn can_update(&self, raw_data: &[(u32, u32)], bin_width: u32) -> (ok: bool)
        requires
            self@.wf(),
        ensures
            ok == self@.admits(raw_data@, bin_width),
    {
        if raw_data.len() == 0 || self.processed_upto >= raw_data.len() {
            return true;
        }
        if bin_width == 0 {
            return false;
        }
        let last_step: u32 = raw_data[raw_data.len() - 1].0;
        let ghost n = bins_needed(raw_data@, bin_width);
        proof {
            lemma_bin_nonneg(last_step, bin_width);
        }
        if last_step / bin_width == u32::MAX {
            return false;
        }
        let required_bins: usize = (last_step / bin_width + 1) as usize;
        let ghost grown = self@.grown(n, bin_width);
        let mut counts: Vec<u32> = self.num_elements.clone();
        assert(counts@ =~= self@.count);
        if counts.len() < required_bins {
            counts.resize(required_bins, 0);
            assert(counts@ =~= resized(self@.count, n, 0u32));
        }
        let ghost fresh = raw_data@.skip(self.processed_upto as int);
        let start: usize = self.processed_upto;
        let mut i: usize = start;
        while i < raw_data.len()
            invariant
                start <= i <= raw_data.len(),
                self@.wf(),
                start == self@.processed,
                !self@.up_to_date(raw_data@),
                bin_width > 0,
                n == bins_needed(raw_data@, bin_width),
                n <= u32::MAX,
                fresh == raw_data@.skip(start as int),
                grown == self@.grown(n, bin_width),
                counts@.len() == self@.room(n),
                grown.count.len() == self@.room(n),
                within(fresh.take(i - start), bin_width, self@.room(n)),
                forall|b: int|
                    0 <= b < counts@.len() ==> #[trigger] counts@[b] == grown.count[b] + hits(
                        fresh.take(i - start),
                        bin_width,
                        b,
                    ),
            decreases raw_data.len() - i,
        {
            let ghost k = i - start;
            let p: (u32, u32) = raw_data[i];
            proof {
                lemma_bin_nonneg(p.0, bin_width);
                assert(fresh[k] == p);
                assert(fresh.take(k + 1).drop_last() =~= fresh.take(k));
                assert(fresh.take(k + 1).last() == p);
            }
            let b: usize = (p.0 / bin_width) as usize;
            assert(b == bin_of(p.0, bin_width));
            if b >= counts.len() {
                return false;
            }
            if counts[b] == u32::MAX {
                proof {
                    lemma_hits_prefix(fresh, bin_width, b as int, k + 1);
                    assert(counts@[b as int] == grown.count[b as int] + hits(
                        fresh.take(k),
                        bin_width,
                        b as int,
                    ));
                    assert(grown.count[b as int] + hits(fresh, bin_width, b as int) > u32::MAX);
                }
                return false;
            }
            counts[b] = counts[b] + 1;
            i += 1;
        }
        proof {
            assert(fresh.take(fresh.len() as int) =~= fresh);
            assert forall|b: int| 0 <= b < self@.room(n) implies grown.count[b] + #[trigger] hits(
                fresh,
                bin_width,
                b,
            ) <= u32::MAX by {
                assert(counts@[b] == grown.count[b] + hits(fresh, bin_width, b));
            }
        }
        true
    }
}

impl Clone for BinnedData {
    fn clone(&self) -> (r: Self)
        ensures
            r@ == self@,
    {
        let mut line_coords: Vec<(u64, u32)> = Vec::new();
        let mut i: usize = 0;
        while i < self.line_coords.len()
            invariant
                i <= self.line_coords.len(),
                line_coords@ =~= self.line_coords@.take(i as int),
            decreases self.line_coords.len() - i,
        {
            line_coords.push(self.line_coords[i]);
            i += 1;
        }
        let r = BinnedData {
            x_coords: self.x_coords.clone(),
            line_coords,
            lowers: self.lowers.clone(),
            uppers: self.uppers.clone(),
            m2: self.m2.clone(),
            num_elements: self.num_elements.clone(),
            processed_upto: self.processed_upto,
        };
        assert(r@ =~= self@);
        r
    }
}

/// The contents of a series that is shown point by point.
#[verifier::ext_equal]
pub struct RawSeries {
    pub coords: Seq<(u32, u32)>,
    /// Number of points that have been taken in.
    pub processed: nat,
}

impl RawSeries {
    pub open spec fn empty() -> RawSeries {
        RawSeries { coords: Seq::empty(), processed: 0 }
    }

    /// The series after it has taken in what is new in `points`.
    pub open spec fn updated(self, points: Seq<(u32, u32)>) -> RawSeries {
        RawSeries {
            coords: if self.processed <= points.len() {
                self.coords + points.skip(self.processed as int)
            } else {
                self.coords
            },
            processed: points.len(),
        }
    }
}

/// A series shown point by point: the step and the value of each point.
#[derive(Debug)]
pub struct RawPoints {
    pub coords: Vec<(u32, u32)>,
    /// Number of points that have been taken in.
    pub processed_upto: usize,
}

impl View for RawPoints {
    type V = RawSeries;

    open spec fn view(&self) -> RawSeries {
        RawSeries { coords: self.coords@, processed: self.processed_upto as nat }
    }
}

impl Default for RawPoints {
    fn default() -> (r: Self)
        ensures
            r@ == RawSeries::empty(),
    {
        RawPoints { coords: Vec::new(), processed_upto: 0 }
    }
}

/// Copies the entries of `from` at and after `start` to the end of `to`.
fn append_from(to: &mut Vec<(u32, u32)>, from: &[(u32, u32)], start: usize)
    requires
        start <= from@.len(),
    ensures
        final(to)@ == old(to)@ + from@.skip(start as int),
{
    let mut i: usize = start;
    while i < from.len()
        invariant
            start <= i <= from.len(),
            to@ =~= old(to)@ + from@.subrange(start as int, i as int),
        decreases from.len() - i,
    {
        to.push(from[i]);
        i += 1;
    }
    assert(from@.subrange(start as int, from@.len() as int) =~= from@.skip(start as int));
}

impl Clone for RawPoints {
    fn clone(&self) -> (r: Self)
        ensures
            r@ == self@,
    {
        let mut coords: Vec<(u32, u32)> = Vec::new();
        append_from(&mut coords, self.coords.as_slice(), 0);
        let r = RawPoints { coords, processed_upto: self.processed_upto };
        assert(r@.coords =~= self@.coords);
        r
    }
}

/// The contents of a series.
#[verifier::ext_equal]
pub enum Series {
    Binned(Bins),
    Raw(RawSeries),
}

impl Series {
    /// A series that has taken in nothing.
    pub open spec fn fresh(eval: bool) -> Series {
        if eval {
            Series::Raw(RawSeries::empty())
        } else {
            Series::Binned(Bins::empty())
        }
    }

    pub open spec fn wf(self) -> bool {
        match self {
            Series::Binned(bins) => bins.wf(),
            Series::Raw(_) => true,
        }
    }

    /// The series with nothing in it, of the same kind.
    pub open spec fn cleared(self) -> Series {
        Series::fresh(self is Raw)
    }

    /// The series after an update. A reset starts it over.
    pub open spec fn updated(
        self,
        g: Kernel,
        points: Seq<(u32, u32)>,
        interval: u32,
        reset: bool,
    ) -> Series {
        let start = if reset {
            self.cleared()
        } else {
            self
        };
        match start {
            Series::Binned(bins) => Series::Binned(bins.updated(g, points, interval)),
            Series::Raw(raw) => Series::Raw(raw.updated(points)),
        }
    }

    /// The update can be made: a series shown point by point takes in anything.
    pub open spec fn admits(self, points: Seq<(u32, u32)>, interval: u32, reset: bool) -> bool {
        let start = if reset {
            self.cleared()
        } else {
            self
        };
        match start {
            Series::Binned(bins) => bins.admits(points, interval),
            Series::Raw(_) => true,
        }
    }

    /// The part that does not depend on the values in the bins.
    pub open spec fn same_layout(self, other: Series) -> bool {
        match (self, other) {
            (Series::Binned(a), Series::Binned(b)) => a.layout() == b.layout(),
            (Series::Raw(a), Series::Raw(b)) => a == b,
            _ => false,
        }
    }
}

/// A series: binned, or shown point by point, as evaluation tags are.
#[derive(Debug)]
pub enum DataStore {
    Binned(BinnedData),
    Raw(RawPoints),
}

impl View for DataStore {
    type V = Series;

    open spec fn view(&self) -> Series {
        match self {
            DataStore::Binned(binned) => Series::Binned(binned@),
            DataStore::Raw(raw) => Series::Raw(raw@),
        }
    }
}

impl Clone for DataStore {
    fn clone(&self) -> (r: Self)
        ensures
            r@ == self@,
    {
        match self {
            DataStore::Binned(binned) => DataStore::Binned(binned.clone()),
            DataStore::Raw(raw) => DataStore::Raw(raw.clone()),
        }
    }
}

impl DataStore {
    /// A series that has taken in nothing.
    pub fn fresh(eval: bool) -> (r: DataStore)
        ensures
            r@ == Series::fresh(eval),
    {
        if eval {
            DataStore::Raw(RawPoints::default())
        } else {
            DataStore::Binned(BinnedData::default())
        }
    }

    /// Whether `update` can take in `points`.
    pub fn can_update(&self, points: &[(u32, u32)], interval: u32, force_reset: bool) -> (ok: bool)
        requires
            self@.wf(),
        ensures
            ok == self@.admits(points@, interval, force_reset),
    {
        match self {
            DataStore::Raw(_) => true,
            DataStore::Binned(binned) => {
                if force_reset {
                    BinnedData::default().can_update(points, interval)
                } else {
                    binned.can_update(points, interval)
                }
            },
        }
    }

    /// Takes in what is new in `points`; after a forced reset, all of them.
    pub fn update<F: Fn(u32, u32, u32, u32) -> Moments>(
        &mut self,
        points: &[(u32, u32)],
        interval: u32,
        force_reset: bool,
        step: &F,
    )
        requires
            old(self)@.wf(),
            total(*step),
            old(self)@.admits(points@, interval, force_reset),
        ensures
            final(self)@.wf(),
            final(self)@.same_layout(old(self)@.updated(blank(), points@, interval, force_reset)),
            forall|g: Kernel| #[trigger]
                computes(*step, g) ==> final(self)@ == old(self)@.updated(
                    g,
                    points@,
                    interval,
                    force_reset,
                ),
    {
        match self {
            DataStore::Raw(raw) => {
                let start: usize = if force_reset {
                    0
                } else {
                    raw.processed_upto
                };
                if force_reset {
                    raw.coords.clear();
                }
                if start <= points.len() {
                    append_from(&mut raw.coords, points, start);
                }
                raw.processed_upto = points.len();
            },
            DataStore::Binned(binned) => {
                if force_reset {
                    *binned = BinnedData::default();
                }
                binned.update_incrementally(points, interval, step);
            },
        }
    }
}

} // verus!
