use vstd::prelude::*;

verus! {

/// The axis along which a container stacks its children.
#[derive(Copy, Clone, Debug, PartialEq, Eq, Structural)]
pub enum Direction {
    Horizontal,
    Vertical,
}

impl Direction {
    /// The position of this axis in a `[width, height]` pair.
    pub open spec fn spec_index(self) -> usize {
        match self {
            Direction::Horizontal => 0,
            Direction::Vertical => 1,
        }
    }

    #[verifier::when_used_as_spec(spec_index)]
    pub fn index(self) -> (i: usize)
        ensures
            i == self.spec_index(),
    {
        match self {
            Direction::Horizontal => 0,
            Direction::Vertical => 1,
        }
    }
}

/// The smaller of two integers.
pub open spec fn lesser(a: int, b: int) -> int {
    if a <= b {
        a
    } else {
        b
    }
}

/// The larger of two integers.
pub open spec fn greater(a: int, b: int) -> int {
    if a >= b {
        a
    } else {
        b
    }
}

/// `v` brought into `[lo, hi]`: raised to `lo` if below it, else lowered to `hi` if above it.
pub open spec fn clamp(v: int, lo: int, hi: int) -> int {
    if v < lo {
        lo
    } else if v > hi {
        hi
    } else {
        v
    }
}

/// A bound of a span brought into what the library represents: sums that
/// pass the largest or the smallest representable value stop there.
pub open spec fn capped(v: int) -> int {
    clamp(v, i64::MIN as int, i64::MAX as int)
}

/// A bound of a span as a length: nothing if it is negative, and no more
/// than the largest length a rectangle can have.
pub open spec fn as_length(v: int) -> nat {
    clamp(v, 0, u32::MAX as int) as nat
}

/// A one-dimensional sizing constraint as a mathematical value: at least
/// `min`, and at most `max` where one is given.
pub struct SpanModel {
    pub min: int,
    pub max: Option<int>,
}

impl SpanModel {
    pub open spec fn zero() -> SpanModel {
        SpanModel { min: 0, max: Some(0int) }
    }

    pub open spec fn fill() -> SpanModel {
        SpanModel { min: 0, max: None }
    }

    pub open spec fn exactly(x: int) -> SpanModel {
        SpanModel { min: x, max: Some(x) }
    }

    pub open spec fn at_least(x: int) -> SpanModel {
        SpanModel { min: x, max: None }
    }

    /// The constraint of two items placed end to end.
    pub open spec fn add(self, other: SpanModel) -> SpanModel {
        SpanModel {
            min: self.min + other.min,
            max: match (self.max, other.max) {
                (Some(s), Some(o)) => Some(s + o),
                _ => None,
            },
        }
    }

    /// The constraint of two items placed side by side: the larger minimum
    /// and the tighter maximum.
    pub open spec fn combine_max(self, other: SpanModel) -> SpanModel {
        SpanModel {
            min: greater(self.min, other.min),
            max: match (self.max, other.max) {
                (Some(s), Some(o)) => Some(lesser(s, o)),
                (Some(s), None) => Some(s),
                (None, o) => o,
            },
        }
    }

    /// The constraint widened by `p` at both ends, or narrowed where `p`
    /// is negative. Nothing stops at zero.
    pub open spec fn padded(self, p: int) -> SpanModel {
        SpanModel {
            min: self.min + 2 * p,
            max: match self.max {
                Some(m) => Some(m + 2 * p),
                None => None,
            },
        }
    }

    /// Both bounds brought into what the library represents.
    pub open spec fn capped(self) -> SpanModel {
        SpanModel {
            min: capped(self.min),
            max: match self.max {
                Some(m) => Some(capped(m)),
                None => None,
            },
        }
    }

    /// Whether both bounds are representable.
    pub open spec fn fits(self) -> bool {
        &&& i64::MIN <= self.min <= i64::MAX
        &&& self.max matches Some(m) ==> i64::MIN <= m <= i64::MAX
    }

    /// Whether the maximum, where there is one, is no smaller than the minimum.
    pub open spec fn ordered(self) -> bool {
        self.max matches Some(m) ==> m >= self.min
    }

    /// Whether there is no maximum.
    pub open spec fn unbounded(self) -> bool {
        self.max is None
    }
}

/// A one-dimensional sizing constraint in layout units: a minimum and an
/// optional maximum. Sums that pass the largest or the smallest
/// representable value stop there.
#[derive(Copy, Clone, Debug)]
pub struct Span {
    min: i64,
    max: Option<i64>,
}

impl View for Span {
    type V = SpanModel;

    closed spec fn view(&self) -> SpanModel {
        SpanModel {
            min: self.min as int,
            max: match self.max {
                Some(m) => Some(m as int),
                None => None,
            },
        }
    }
}

/// `v` brought into what a span can hold.
fn cap(v: i128) -> (r: i64)
    ensures
        r == capped(v as int),
{
    if v > i64::MAX as i128 {
        i64::MAX
    } else if v < i64::MIN as i128 {
        i64::MIN
    } else {
        v as i64
    }
}

/// `a + b`, stopping at the limits.
fn add_capped(a: i64, b: i64) -> (r: i64)
    ensures
        r == capped(a + b),
{
    cap(a as i128 + b as i128)
}

/// `a + 2 * p`, stopping at the limits.
fn pad_capped(a: i64, p: i64) -> (r: i64)
    ensures
        r == capped(a + 2 * p),
{
    cap(a as i128 + 2 * (p as i128))
}

/// A bound of a span as a length.
pub fn length(v: i64) -> (r: u32)
    ensures
        r == as_length(v as int),
{
    if v < 0 {
        0
    } else if v > u32::MAX as i64 {
        u32::MAX
    } else {
        v as u32
    }
}

impl Span {
    /// Every span that exists has representable bounds.
    pub proof fn lemma_fits(self)
        ensures
            self@.fits(),
            self@.capped() == self@,
    {
    }

    /// No minimum and no maximum.
    pub fn fill() -> (s: Self)
        ensures
            s@ == SpanModel::fill(),
    {
        Self::min(0)
    }

    /// At least `min`, with no maximum.
    pub fn min(min: i64) -> (s: Self)
        ensures
            s@ == SpanModel::at_least(min as int),
    {
        Self { min, max: None }
    }

    /// Exactly `x`.
    pub fn exactly(x: i64) -> (s: Self)
        ensures
            s@ == SpanModel::exactly(x as int),
    {
        Self { min: x, max: Some(x) }
    }

    /// Exactly nothing.
    pub fn zero() -> (s: Self)
        ensures
            s@ == SpanModel::zero(),
    {
        Self { min: 0, max: Some(0) }
    }

    /// The minimum.
    pub fn lower(&self) -> (m: i64)
        ensures
            m == self@.min,
    {
        self.min
    }

    /// The maximum, if there is one.
    pub fn upper(&self) -> (m: Option<i64>)
        ensures
            m is Some <==> self@.max is Some,
            m matches Some(v) ==> self@.max == Some(v as int),
    {
        self.max
    }

    /// Combines two constraints on the cross axis: the larger minimum, and
    /// the tighter of the maxima that are present.
    pub fn max(self, other: Self) -> (s: Self)
        ensures
            s@ == self@.combine_max(other@),
    {
        Self {
            min: if self.min >= other.min {
                self.min
            } else {
                other.min
            },
            max: match (self.max, other.max) {
                (Some(s), Some(o)) => Some(
                    if s <= o {
                        s
                    } else {
                        o
                    },
                ),
                (Some(s), None) => Some(s),
                (None, o) => o,
            },
        }
    }

    /// What `+` gives: the span whose view is the capped sum of the views.
    pub closed spec fn sum(self, other: Span) -> Span {
        Span {
            min: capped(self.min + other.min) as i64,
            max: match (self.max, other.max) {
                (Some(s), Some(o)) => Some(capped(s + o) as i64),
                _ => None,
            },
        }
    }

    /// The view of a sum is the capped sum of the views.
    pub proof fn lemma_sum(self, other: Span)
        ensures
            self.sum(other)@ == self@.add(other@).capped(),
    {
    }

    /// Combines two constraints on the primary axis: the minima add up, and
    /// so do the maxima if both are present.
    pub fn add(self, other: Self) -> (s: Self)
        ensures
            s@ == self@.add(other@).capped(),
            s == self.sum(other),
    {
        Self {
            min: add_capped(self.min, other.min),
            max: match (self.max, other.max) {
                (Some(s), Some(o)) => Some(add_capped(s, o)),
                _ => None,
            },
        }
    }

    /// Widens the constraint by `padding` at both ends, or narrows it where
    /// `padding` is negative.
    pub fn padded(self, padding: i64) -> (s: Self)
        ensures
            s@ == self@.padded(padding as int).capped(),
    {
        Self {
            min: pad_capped(self.min, padding),
            max: match self.max {
                Some(m) => Some(pad_capped(m, padding)),
                None => None,
            },
        }
    }
}

impl std::ops::Add for Span {
    type Output = Span;

    fn add(self, other: Span) -> (s: Span) {
        Span {
            min: add_capped(self.min, other.min),
            max: match (self.max, other.max) {
                (Some(s), Some(o)) => Some(add_capped(s, o)),
                _ => None,
            },
        }
    }
}

impl vstd::std_specs::ops::AddSpecImpl for Span {
    open spec fn obeys_add_spec() -> bool {
        true
    }

    open spec fn add_req(self, other: Span) -> bool {
        true
    }

    open spec fn add_spec(self, other: Span) -> Span {
        self.sum(other)
    }
}

/// A two-dimensional sizing constraint as a mathematical value.
pub struct ReqModel {
    pub w: SpanModel,
    pub h: SpanModel,
}

impl ReqModel {
    /// Unconstrained on both axes.
    pub open spec fn any() -> ReqModel {
        ReqModel { w: SpanModel::fill(), h: SpanModel::fill() }
    }

    /// The constraint along `dir`.
    pub open spec fn along(self, dir: Direction) -> SpanModel {
        match dir {
            Direction::Horizontal => self.w,
            Direction::Vertical => self.h,
        }
    }

    /// The constraint across `dir`.
    pub open spec fn across(self, dir: Direction) -> SpanModel {
        match dir {
            Direction::Horizontal => self.h,
            Direction::Vertical => self.w,
        }
    }

    /// The requirement made of a constraint along `dir` and one across it.
    pub open spec fn oriented(dir: Direction, along: SpanModel, across: SpanModel) -> ReqModel {
        match dir {
            Direction::Horizontal => ReqModel { w: along, h: across },
            Direction::Vertical => ReqModel { w: across, h: along },
        }
    }

    /// Both axes widened by `p` at both ends.
    pub open spec fn padded(self, p: int) -> ReqModel {
        ReqModel { w: self.w.padded(p), h: self.h.padded(p) }
    }

    /// Both axes brought into what the library represents.
    pub open spec fn capped(self) -> ReqModel {
        ReqModel { w: self.w.capped(), h: self.h.capped() }
    }

    /// Whether all bounds are representable lengths.
    pub open spec fn fits(self) -> bool {
        self.w.fits() && self.h.fits()
    }
}

/// How much room a widget asks for: a span for its width and one for its height.
#[derive(Copy, Clone, Debug)]
pub struct LayoutReq {
    w: Span,
    h: Span,
}

impl View for LayoutReq {
    type V = ReqModel;

    closed spec fn view(&self) -> ReqModel {
        ReqModel { w: self.w@, h: self.h@ }
    }
}

impl LayoutReq {
    /// Every requirement that exists has representable bounds.
    pub proof fn lemma_fits(self)
        ensures
            self@.fits(),
            self@.capped() == self@,
    {
        self.w.lemma_fits();
        self.h.lemma_fits();
    }

    /// The requirement with the given `[width, height]` spans.
    pub fn new(span: [Span; 2]) -> (r: Self)
        ensures
            r@ == (ReqModel { w: span[0]@, h: span[1]@ }),
    {
        Self { w: span[0], h: span[1] }
    }

    /// No minimum and no maximum on either axis.
    pub fn any() -> (r: Self)
        ensures
            r@ == ReqModel::any(),
    {
        Self::new([Span::min(0), Span::min(0)])
    }

    /// Adds `2 * padding` to the minimum and to the maximum, where present,
    /// of both axes.
    pub fn padded(self, padding: i64) -> (r: Self)
        ensures
            r@ == self@.padded(padding as int).capped(),
    {
        Self { w: self.w.padded(padding), h: self.h.padded(padding) }
    }

    pub fn width(&self) -> (s: Span)
        ensures
            s@ == self@.w,
    {
        self.w
    }

    pub fn height(&self) -> (s: Span)
        ensures
            s@ == self@.h,
    {
        self.h
    }

    /// The span along `dir`.
    pub fn along(&self, dir: Direction) -> (s: Span)
        ensures
            s@ == self@.along(dir),
    {
        match dir {
            Direction::Horizontal => self.w,
            Direction::Vertical => self.h,
        }
    }

    /// The span across `dir`.
    pub fn across(&self, dir: Direction) -> (s: Span)
        ensures
            s@ == self@.across(dir),
    {
        match dir {
            Direction::Horizontal => self.h,
            Direction::Vertical => self.w,
        }
    }

    /// The requirement made of a span along `dir` and one across it.
    pub fn oriented(dir: Direction, along: Span, across: Span) -> (r: Self)
        ensures
            r@ == ReqModel::oriented(dir, along@, across@),
    {
        match dir {
            Direction::Horizontal => Self { w: along, h: across },
            Direction::Vertical => Self { w: across, h: along },
        }
    }
}

/// An axis-aligned rectangle as a mathematical value. A point belongs to it
/// when it lies at or after the near edges and strictly before the far edges.
pub struct Rect {
    pub x: int,
    pub y: int,
    pub w: int,
    pub h: int,
}

impl Rect {
    /// The first horizontal coordinate past the rectangle.
    pub open spec fn far_x(self) -> int {
        self.x + self.w
    }

    /// The first vertical coordinate past the rectangle.
    pub open spec fn far_y(self) -> int {
        self.y + self.h
    }

    /// The rectangle of the given size at the origin.
    pub open spec fn global(w: int, h: int) -> Rect {
        Rect { x: 0, y: 0, w, h }
    }

    /// The part of this rectangle asked for by a position relative to it and
    /// a size: the position is clamped into `[0, size of self]`, and the size
    /// is cut so that the result ends no later than this rectangle does.
    pub open spec fn window(self, px: int, py: int, sw: int, sh: int) -> Rect {
        let cx = clamp(px, 0, self.w);
        let cy = clamp(py, 0, self.h);
        Rect {
            x: self.x + cx,
            y: self.y + cy,
            w: lesser(sw, self.w - cx),
            h: lesser(sh, self.h - cy),
        }
    }

    /// This rectangle shrunk by `p` on every side, `p` being cut to half of
    /// the width for the horizontal sides and half of the height for the
    /// vertical ones.
    pub open spec fn padded_window(self, p: int) -> Rect {
        let pw = clamp(p, 0, self.w / 2);
        let ph = clamp(p, 0, self.h / 2);
        Rect { x: self.x + pw, y: self.y + ph, w: self.w - 2 * pw, h: self.h - 2 * ph }
    }

    /// Whether the point belongs to the rectangle.
    pub open spec fn contains(self, px: int, py: int) -> bool {
        &&& self.x <= px < self.x + self.w
        &&& self.y <= py < self.y + self.h
    }

    /// Whether `inner` lies within this rectangle.
    pub open spec fn encloses(self, inner: Rect) -> bool {
        &&& self.x <= inner.x
        &&& self.y <= inner.y
        &&& inner.far_x() <= self.far_x()
        &&& inner.far_y() <= self.far_y()
    }

    /// Whether the rectangle starts at or after the origin, has no negative
    /// extent and ends at a representable coordinate.
    pub open spec fn valid(self) -> bool {
        &&& 0 <= self.x
        &&& 0 <= self.y
        &&& 0 <= self.w
        &&& 0 <= self.h
        &&& self.far_x() <= u32::MAX
        &&& self.far_y() <= u32::MAX
    }
}

/// An absolute rectangle in the coordinate space of the root window, in
/// layout units.
#[derive(Copy, Clone, Debug)]
pub struct Bounds {
    x: u32,
    y: u32,
    w: u32,
    h: u32,
}

impl View for Bounds {
    type V = Rect;

    closed spec fn view(&self) -> Rect {
        Rect { x: self.x as int, y: self.y as int, w: self.w as int, h: self.h as int }
    }
}

/// `v` brought into `[0, hi]`.
fn clamp_offset(v: i64, hi: u32) -> (r: u32)
    ensures
        r == clamp(v as int, 0, hi as int),
{
    if v < 0 {
        0
    } else if v > hi as i64 {
        hi
    } else {
        v as u32
    }
}

impl Bounds {
    #[verifier::type_invariant]
    closed spec fn inv(self) -> bool {
        self@.valid()
    }

    /// The root rectangle: the given size at the origin.
    pub fn global(size: [u32; 2]) -> (b: Self)
        ensures
            b@ == Rect::global(size[0] as int, size[1] as int),
            b@.valid(),
    {
        Self { x: 0, y: 0, w: size[0], h: size[1] }
    }

    /// The top-left corner.
    pub fn pos(&self) -> (p: [u32; 2])
        ensures
            p[0] == self@.x,
            p[1] == self@.y,
            self@.valid(),
    {
        proof {
            use_type_invariant(self);
        }
        [self.x, self.y]
    }

    /// The width and height.
    pub fn size(&self) -> (s: [u32; 2])
        ensures
            s[0] == self@.w,
            s[1] == self@.h,
            self@.valid(),
    {
        proof {
            use_type_invariant(self);
        }
        [self.w, self.h]
    }

    /// The child rectangle at `pos` relative to this one, of the given size,
    /// clamped to lie within this rectangle.
    pub fn window(&self, pos: [i64; 2], size: [u32; 2]) -> (b: Self)
        ensures
            b@ == self@.window(pos[0] as int, pos[1] as int, size[0] as int, size[1] as int),
            self@.valid(),
            b@.valid(),
    {
        proof {
            use_type_invariant(self);
        }
        let cx = clamp_offset(pos[0], self.w);
        let cy = clamp_offset(pos[1], self.h);
        let rw = self.w - cx;
        let rh = self.h - cy;
        Self {
            x: self.x + cx,
            y: self.y + cy,
            w: if size[0] <= rw {
                size[0]
            } else {
                rw
            },
            h: if size[1] <= rh {
                size[1]
            } else {
                rh
            },
        }
    }

    /// This rectangle shrunk by `padding` on every side, the padding being
    /// cut to half of each dimension.
    pub fn padded_window(&self, padding: i64) -> (b: Self)
        ensures
            b@ == self@.padded_window(padding as int),
            self@.valid(),
            b@.valid(),
    {
        proof {
            use_type_invariant(self);
        }
        let pw = clamp_offset(padding, self.w / 2);
        let ph = clamp_offset(padding, self.h / 2);
        Self { x: self.x + pw, y: self.y + ph, w: self.w - 2 * pw, h: self.h - 2 * ph }
    }

    /// Whether `point` lies inside: at or after the near edges and strictly
    /// before the far edges.
    pub fn contains(&self, point: [i64; 2]) -> (inside: bool)
        ensures
            inside == self@.contains(point[0] as int, point[1] as int),
    {
        let px = point[0];
        let py = point[1];
        self.x as i64 <= px && px < self.x as i64 + self.w as i64 && self.y as i64 <= py && py
            < self.y as i64 + self.h as i64
    }
}

/// Stacking nothing before `x` leaves `x` as it is.
pub proof fn lemma_add_zero(x: SpanModel)
    ensures
        SpanModel::zero().add(x) == x,
        x.add(SpanModel::zero()) == x,
        x.fits() ==> SpanModel::zero().add(x).capped() == x,
{
}

/// A span combined with itself on the cross axis is unchanged.
pub proof fn lemma_combine_max_same(x: SpanModel)
    ensures
        x.combine_max(x) == x,
{
}

/// The sum of two spans is unbounded as soon as one of them is, and so in
/// particular when both are.
pub proof fn lemma_add_unbounded(a: SpanModel, b: SpanModel)
    requires
        a.unbounded() || b.unbounded(),
    ensures
        a.add(b).unbounded(),
        a.add(b).capped().unbounded(),
{
}

/// Two exact spans combined on the cross axis have the larger of the two
/// values as minimum and the smaller as maximum.
pub proof fn lemma_combine_max_exact(a: int, b: int)
    ensures
        SpanModel::exactly(a).combine_max(SpanModel::exactly(b)).min == greater(a, b),
        SpanModel::exactly(a).combine_max(SpanModel::exactly(b)).max == Some(lesser(a, b)),
{
}

/// An ordered sum: adding and padding keep the maximum at or above the minimum.
pub proof fn lemma_ordered_kept(a: SpanModel, b: SpanModel, p: int)
    requires
        a.ordered(),
        b.ordered(),
    ensures
        a.add(b).ordered(),
        a.add(b).capped().ordered(),
        a.padded(p).ordered(),
        a.padded(p).capped().ordered(),
{
}

/// Padding by `p` and then by `q` is padding by `p + q`, on both minima
/// and on the maxima that are present, for paddings of either sign. With
/// the stop at the limits this holds where the first padding stays within
/// them, and for any two paddings that are not negative.
pub proof fn lemma_padded_twice(r: ReqModel, p: int, q: int)
    ensures
        r.padded(p).padded(q) == r.padded(p + q),
        r.padded(p).fits() ==> r.padded(p).capped().padded(q).capped() == r.padded(p + q).capped(),
        r.fits() && p >= 0 && q >= 0 ==> r.padded(p).capped().padded(q).capped() == r.padded(
            p + q,
        ).capped(),
{
}

/// A window never ends after its parent does, whatever position and size
/// are asked for, and never starts before it.
pub proof fn lemma_window_within(parent: Rect, px: int, py: int, sw: int, sh: int)
    requires
        parent.w >= 0,
        parent.h >= 0,
    ensures
        parent.window(px, py, sw, sh).far_x() <= parent.far_x(),
        parent.window(px, py, sw, sh).far_y() <= parent.far_y(),
        parent.window(px, py, sw, sh).x >= parent.x,
        parent.window(px, py, sw, sh).y >= parent.y,
        sw >= 0 && sh >= 0 ==> parent.encloses(parent.window(px, py, sw, sh)),
        parent.valid() && sw >= 0 && sh >= 0 ==> parent.window(px, py, sw, sh).valid(),
{
}

/// A padded window lies within its parent and has no negative extent,
/// whatever the padding.
pub proof fn lemma_padded_window_within(parent: Rect, p: int)
    requires
        parent.w >= 0,
        parent.h >= 0,
    ensures
        parent.encloses(parent.padded_window(p)),
        parent.padded_window(p).w >= 0,
        parent.padded_window(p).h >= 0,
        p <= 0 ==> parent.padded_window(p) == parent,
        parent.valid() ==> parent.padded_window(p).valid(),
{
}

} // verus!
