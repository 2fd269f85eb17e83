use vstd::prelude::*;
use crate::arrange::{allocate, lemma_placed, lengths, placed, share};
use crate::canvas::{Canvas, Shape};
use crate::element::Element;
use crate::layout::{
    as_length, length, Bounds, Direction, LayoutReq, Rect, ReqModel, Span, SpanModel,
};
use crate::widget::Widget;
use crate::{Event, Response};

verus! {

/// Children stacked in a row or in a column.
#[verifier::reject_recursive_types(D)]
pub struct List<'a, D> {
    dir: Direction,
    children: Vec<Element<'a, D>>,
}

/// The requirement of the first `k` of the given children stacked along
/// `dir`: sums along it, the larger minimum and tighter maximum across it.
/// No children need exactly nothing along `dir` and anything across it.
pub open spec fn stacked<'a, D>(children: Seq<Element<'a, D>>, dir: Direction, k: nat) -> ReqModel
    decreases k,
{
    if k == 0 {
        ReqModel::oriented(dir, SpanModel::zero(), SpanModel::fill())
    } else {
        let before = stacked(children, dir, (k - 1) as nat);
        let child = children[k - 1].req();
        ReqModel::oriented(
            dir,
            before.along(dir).add(child.along(dir)).capped(),
            before.across(dir).combine_max(child.across(dir)),
        )
    }
}

/// The minima along `dir` that the given children remember, as lengths.
pub open spec fn cached_mins<'a, D>(children: Seq<Element<'a, D>>, dir: Direction) -> Seq<nat> {
    Seq::new(children.len(), |i: int| as_length(children[i].cached().along(dir).min))
}

/// The minima along `dir` that the given children need, as lengths.
pub open spec fn needed_mins<'a, D>(children: Seq<Element<'a, D>>, dir: Direction) -> Seq<nat> {
    Seq::new(children.len(), |i: int| as_length(children[i].req().along(dir).min))
}

/// The extent of `bounds` along `dir`.
pub open spec fn extent(bounds: Rect, dir: Direction) -> int {
    match dir {
        Direction::Horizontal => bounds.w,
        Direction::Vertical => bounds.h,
    }
}

/// The rectangle inside `bounds` that starts `offset` along `dir`, is
/// `size` long along it and spans `bounds` across it.
pub open spec fn slot(bounds: Rect, dir: Direction, offset: int, size: int) -> Rect {
    match dir {
        Direction::Horizontal => bounds.window(offset, 0, size, bounds.h),
        Direction::Vertical => bounds.window(0, offset, bounds.w, size),
    }
}

/// Whether no child before `j` consumes `event`, so that child `j` gets
/// to see it.
pub open spec fn reached<'a, D>(children: Seq<Element<'a, D>>, event: Event, j: int) -> bool {
    forall|k: int| 0 <= k < j ==> !(#[trigger] children[k]).hits(event)
}

/// Whether child `i`, which gets `event` unless a child before it
/// consumed it, may turn `before` into `after`.
pub open spec fn step<'a, D>(
    children: Seq<Element<'a, D>>,
    event: Event,
    i: int,
    before: D,
    after: D,
) -> bool {
    if reached(children, event, i) {
        children[i].reacts(event, before, after)
    } else {
        after == before
    }
}

/// Whether the children, one after the other, may take the application
/// state from `before` to `after` on `event`, through the states in
/// `trace`: child `i` finds `trace[i]` and leaves `trace[i + 1]`.
pub open spec fn relays<'a, D>(
    children: Seq<Element<'a, D>>,
    event: Event,
    trace: Seq<D>,
    before: D,
    after: D,
) -> bool {
    &&& trace.len() == children.len() + 1
    &&& trace[0] == before
    &&& trace[children.len() as int] == after
    &&& forall|i: int|
        0 <= i < children.len() ==> step(children, event, i, #[trigger] trace[i], trace[i + 1])
}

/// Whether the children, drawn one after the other, may append `shapes`
/// and take the application state from `before` to `after`, through the
/// states in `trace` and with the shapes in `drawn` appended so far: child
/// `i` finds `trace[i]` and `drawn[i]` and leaves `trace[i + 1]` and
/// `drawn[i + 1]`.
pub open spec fn shows<'a, D>(
    children: Seq<Element<'a, D>>,
    trace: Seq<D>,
    drawn: Seq<Seq<Shape>>,
    before: D,
    after: D,
    shapes: Seq<Shape>,
) -> bool {
    &&& trace.len() == children.len() + 1
    &&& drawn.len() == children.len() + 1
    &&& trace[0] == before
    &&& trace[children.len() as int] == after
    &&& drawn[0] == Seq::<Shape>::empty()
    &&& drawn[children.len() as int] == shapes
    &&& forall|i: int|
        0 <= i < children.len() ==> adds(children[i], #[trigger] trace[i], trace[i + 1], drawn[i], drawn[i + 1])
}

/// Whether `child`, drawn, may take the application state from `before`
/// to `after` and the shapes drawn from `had` to `has`.
pub open spec fn adds<'a, D>(
    child: Element<'a, D>,
    before: D,
    after: D,
    had: Seq<Shape>,
    has: Seq<Shape>,
) -> bool {
    exists|part: Seq<Shape>| #[trigger] child.paints(before, after, part) && has == had + part
}

/// Whether one of the children consumes `event`.
pub open spec fn any_hits<'a, D>(children: Seq<Element<'a, D>>, event: Event) -> bool {
    exists|i: int| 0 <= i < children.len() && (#[trigger] children[i]).hits(event)
}

impl<'a, D> List<'a, D> {
    /// The axis along which the children are stacked.
    pub closed spec fn dir(&self) -> Direction {
        self.dir
    }

    /// The children, first to last.
    pub closed spec fn children(&self) -> Seq<Element<'a, D>> {
        self.children@
    }

    /// The rectangle child `i` gets when the list is given `bounds`: the
    /// children follow one another along the axis, each as long as the
    /// division of the extent of `bounds` among the remembered minima
    /// gives it, and each spans `bounds` across the axis.
    pub open spec fn place(&self, bounds: Rect, i: int) -> Rect {
        let mins = cached_mins(self.children(), self.dir());
        let avail = extent(bounds, self.dir()) as nat;
        slot(
            bounds,
            self.dir(),
            placed(mins, avail, i as nat) as int,
            share(mins, avail, i) as int,
        )
    }

    /// The rectangle child `i` gets when the list is measured and then
    /// given `bounds`: as `place`, with the minima that the children need.
    pub open spec fn spot(&self, bounds: Rect, i: int) -> Rect {
        let mins = needed_mins(self.children(), self.dir());
        let avail = extent(bounds, self.dir()) as nat;
        slot(
            bounds,
            self.dir(),
            placed(mins, avail, i as nat) as int,
            share(mins, avail, i) as int,
        )
    }

    /// Whether, with the list measured and arranged in `bounds`, no child
    /// before `j` consumes `event`.
    pub open spec fn would_reach(&self, event: Event, bounds: Rect, j: int) -> bool {
        forall|k: int|
            0 <= k < j ==> !(#[trigger] self.children()[k]).aims(event, self.spot(bounds, k))
    }

    /// Whether child `i`, with the list measured and arranged in `bounds`,
    /// may turn `before` into `after` on `event`.
    pub open spec fn would_step(&self, event: Event, bounds: Rect, i: int, before: D, after: D) -> bool {
        if self.would_reach(event, bounds, i) {
            self.children()[i].acts(event, self.spot(bounds, i), before, after)
        } else {
            after == before
        }
    }

    /// Whether the children, with the list measured and arranged in
    /// `bounds`, may take the application state from `before` to `after`
    /// on `event`, through the states in `trace`.
    pub open spec fn would_relay(
        &self,
        event: Event,
        bounds: Rect,
        trace: Seq<D>,
        before: D,
        after: D,
    ) -> bool {
        &&& trace.len() == self.children().len() + 1
        &&& trace[0] == before
        &&& trace[self.children().len() as int] == after
        &&& forall|i: int|
            0 <= i < self.children().len() ==> self.would_step(
                event,
                bounds,
                i,
                #[trigger] trace[i],
                trace[i + 1],
            )
    }

    /// An empty row.
    pub fn horizontal() -> (l: Self)
        ensures
            l.dir() == Direction::Horizontal,
            l.children().len() == 0,
    {
        Self::new(Direction::Horizontal)
    }

    /// An empty column.
    pub fn vertical() -> (l: Self)
        ensures
            l.dir() == Direction::Vertical,
            l.children().len() == 0,
    {
        Self::new(Direction::Vertical)
    }

    /// An empty list along `dir`.
    pub fn new(dir: Direction) -> (l: Self)
        ensures
            l.dir() == dir,
            l.children().len() == 0,
    {
        Self { dir, children: Vec::new() }
    }

    /// The same list with `child` after the children it has.
    pub fn push(self, child: impl Widget<'a, D> + 'a) -> (l: Self)
        ensures
            l.dir() == self.dir(),
            l.children().len() == self.children().len() + 1,
            l.children().drop_last() == self.children(),
            l.children().last().holds(child),
    {
        let mut l = self;
        l.children.push(Element::from_widget(child));
        assert(l.children@.drop_last() == self.children@);
        l
    }

    /// Child `i`, if there is one.
    pub fn child(&self, i: usize) -> (c: Option<&Element<'a, D>>)
        ensures
            c is Some == (i < self.children().len()),
            c matches Some(e) ==> *e == self.children()[i as int],
    {
        if i < self.children.len() {
            Some(&self.children[i])
        } else {
            None
        }
    }

    /// How many children there are.
    pub fn len(&self) -> (n: usize)
        ensures
            n == self.children().len(),
    {
        self.children.len()
    }
}

/// Children that answer alike need the same room when stacked.
proof fn lemma_stacked_same<'a, D>(
    a: Seq<Element<'a, D>>,
    b: Seq<Element<'a, D>>,
    dir: Direction,
    k: nat,
)
    requires
        k <= a.len(),
        a.len() == b.len(),
        forall|i: int| 0 <= i < a.len() ==> (#[trigger] a[i]).req() == b[i].req(),
    ensures
        stacked(a, dir, k) == stacked(b, dir, k),
    decreases k,
{
    if k > 0 {
        lemma_stacked_same(a, b, dir, (k - 1) as nat);
    }
}

/// Children that were kept relay events alike.
proof fn lemma_relays_same<'a, D>(
    a: Seq<Element<'a, D>>,
    c: Seq<Element<'a, D>>,
    event: Event,
    trace: Seq<D>,
    before: D,
    after: D,
)
    requires
        a.len() == c.len(),
        forall|j: int| 0 <= j < a.len() ==> (#[trigger] a[j]).settled_as(&c[j]),
    ensures
        relays(a, event, trace, before, after) == relays(c, event, trace, before, after),
{
    assert forall|i: int| 0 <= i < a.len() implies reached(a, event, i) == reached(c, event, i) by {
        if reached(a, event, i) {
            assert forall|k: int| 0 <= k < i implies !(#[trigger] c[k]).hits(event) by {
                assert(a[k].settled_as(&c[k]));
                assert(!a[k].hits(event));
            }
        }
        if reached(c, event, i) {
            assert forall|k: int| 0 <= k < i implies !(#[trigger] a[k]).hits(event) by {
                assert(a[k].settled_as(&c[k]));
                assert(!c[k].hits(event));
            }
        }
    }
    assert forall|i: int, m: D, n: D| 0 <= i < a.len() implies step(a, event, i, m, n) == #[trigger] step(
        c,
        event,
        i,
        m,
        n,
    ) by {
        assert(a[i].settled_as(&c[i]));
    }
    if relays(a, event, trace, before, after) {
        assert forall|i: int| 0 <= i < c.len() implies step(
            c,
            event,
            i,
            #[trigger] trace[i],
            trace[i + 1],
        ) by {
            assert(step(a, event, i, trace[i], trace[i + 1]));
        }
    }
    if relays(c, event, trace, before, after) {
        assert forall|i: int| 0 <= i < a.len() implies step(
            a,
            event,
            i,
            #[trigger] trace[i],
            trace[i + 1],
        ) by {
            assert(step(c, event, i, trace[i], trace[i + 1]));
        }
    }
}

/// The children of a list lie one after the other inside its rectangle.
///
/// With minima `mins` and a rectangle `bounds` without negative extent,
/// child `i` starts where the children before it end, is as long as its
/// share, spans `bounds` across the axis, and ends no later than `bounds`
/// does: no child is cut short.
pub proof fn lemma_slots_in_a_row(mins: Seq<nat>, dir: Direction, bounds: Rect, i: nat)
    requires
        i < mins.len(),
        bounds.w >= 0,
        bounds.h >= 0,
    ensures
        ({
            let avail = extent(bounds, dir) as nat;
            let at = placed(mins, avail, i) as int;
            let size = share(mins, avail, i as int) as int;
            &&& at + size <= avail
            &&& placed(mins, avail, i + 1) == at + size
            &&& slot(bounds, dir, at, size) == match dir {
                Direction::Horizontal => Rect { x: bounds.x + at, y: bounds.y, w: size, h: bounds.h },
                Direction::Vertical => Rect { x: bounds.x, y: bounds.y + at, w: bounds.w, h: size },
            }
            &&& bounds.encloses(slot(bounds, dir, at, size))
        }),
{
    let avail = extent(bounds, dir) as nat;
    lemma_placed(mins, avail, i);
}

impl<'a, D> Widget<'a, D> for List<'a, D> {
    open spec fn ready(&self) -> bool {
        forall|i: int| 0 <= i < self.children().len() ==> (#[trigger] self.children()[i]).ready()
    }

    open spec fn req(&self) -> ReqModel {
        stacked(self.children(), self.dir(), self.children().len())
    }

    open spec fn measured(&self) -> bool {
        forall|i: int|
            0 <= i < self.children().len() ==> (#[trigger] self.children()[i]).measured()
    }

    open spec fn fitted(&self, bounds: Rect) -> bool {
        forall|i: int|
            0 <= i < self.children().len() ==> (#[trigger] self.children()[i]).fitted(
                self.place(bounds, i),
            )
    }

    open spec fn hits(&self, event: Event, bounds: Rect) -> bool {
        any_hits(self.children(), event)
    }

    open spec fn redraws(&self, event: Event, bounds: Rect) -> bool {
        exists|j: int|
            0 <= j < self.children().len() && reached(self.children(), event, j) && (
            #[trigger] self.children()[j]).redraws(event)
    }

    open spec fn reacts(&self, event: Event, bounds: Rect, before: D, after: D) -> bool {
        exists|trace: Seq<D>| relays(self.children(), event, trace, before, after)
    }

    open spec fn aims(&self, event: Event, bounds: Rect) -> bool {
        exists|i: int|
            0 <= i < self.children().len() && (#[trigger] self.children()[i]).aims(
                event,
                self.spot(bounds, i),
            )
    }

    open spec fn acts(&self, event: Event, bounds: Rect, before: D, after: D) -> bool {
        exists|trace: Seq<D>| self.would_relay(event, bounds, trace, before, after)
    }

    open spec fn asks(&self, event: Event, bounds: Rect) -> bool {
        exists|j: int|
            0 <= j < self.children().len() && self.would_reach(event, bounds, j) && (
            #[trigger] self.children()[j]).asks(event, self.spot(bounds, j))
    }

    open spec fn paints(&self, bounds: Rect, before: D, after: D, shapes: Seq<Shape>) -> bool {
        exists|trace: Seq<D>, drawn: Seq<Seq<Shape>>|
            shows(self.children(), trace, drawn, before, after, shapes)
    }

    open spec fn regions(&self) -> Seq<Rect> {
        Seq::new(self.children().len(), |i: int| self.children()[i].region())
    }

    fn child_count(&self) -> (n: usize) {
        self.children.len()
    }

    fn child_bounds(&self, i: usize) -> (b: Option<Bounds>) {
        if i < self.children.len() {
            Some(self.children[i].bounds())
        } else {
            None
        }
    }

    fn get_layout_req(&mut self) -> (r: LayoutReq)
        ensures
            final(self).dir() == old(self).dir(),
            final(self).children().len() == old(self).children().len(),
            forall|j: int|
                0 <= j < old(self).children().len() ==> {
                    &&& (#[trigger] final(self).children()[j]).req() == old(self).children()[j].req()
                    &&& final(self).children()[j].cached() == old(self).children()[j].req()
                    &&& final(self).children()[j].region() == old(self).children()[j].region()
                },
    {
        let dir = self.dir;
        let ghost orig = self.children@;
        assert forall|j: int| 0 <= j < orig.len() implies (#[trigger] self.children@[j]).ready() by {
            assert(old(self).children()[j].ready());
        }
        let mut acc = LayoutReq::oriented(dir, Span::zero(), Span::fill());
        let mut i: usize = 0;
        while i < self.children.len()
            invariant
                i <= self.children@.len(),
                self.dir == dir,
                self.children@.len() == orig.len(),
                acc@ == stacked(orig, dir, i as nat),
                forall|j: int| 0 <= j < orig.len() ==> (#[trigger] self.children@[j]).ready(),
                forall|j: int| 0 <= j < orig.len() ==> (#[trigger] self.children@[j]).req() == orig[j].req(),
                forall|j: int| 0 <= j < i ==> (#[trigger] self.children@[j]).measured(),
                forall|j: int| 0 <= j < orig.len() ==> (#[trigger] self.children@[j]).region() == orig[j].region(),
                forall|j: int| 0 <= j < orig.len() ==> (#[trigger] orig[j]).asks_as(&self.children@[j]),
                forall|j: int| 0 <= j < orig.len() ==> (#[trigger] orig[j]).made_as(&self.children@[j]),
                forall|j: int| i <= j < orig.len() ==> (#[trigger] self.children@[j]) == orig[j],
            decreases self.children@.len() - i,
        {
            let ghost before = self.children@;
            assert(before[i as int] == orig[i as int]);
            let c = self.children[i].get_layout_req();
            assert(forall|j: int| 0 <= j < orig.len() && j != i ==> self.children@[j] == before[j]);
            acc = LayoutReq::oriented(
                dir,
                acc.along(dir).add(c.along(dir)),
                acc.across(dir).max(c.across(dir)),
            );
            i = i + 1;
        }
        proof {
            lemma_stacked_same(self.children@, orig, dir, orig.len());
            old(self).lemma_made_alike(self);
            old(self).lemma_asks_alike(self);
            assert forall|j: int| 0 <= j < orig.len() implies (#[trigger] self.children()[j]).cached()
                == orig[j].req() by {
                assert(self.children@[j].measured());
            }
        }
        acc
    }

    fn fit_bounds(&mut self, bounds: Bounds)
        ensures
            final(self).dir() == old(self).dir(),
            final(self).children().len() == old(self).children().len(),
            forall|j: int|
                0 <= j < old(self).children().len() ==> {
                    &&& (#[trigger] final(self).children()[j]).req() == old(self).children()[j].req()
                    &&& final(self).children()[j].cached() == old(self).children()[j].cached()
                    &&& final(self).children()[j].region() == old(self).place(bounds@, j)
                },
    {
        let dir = self.dir;
        let ghost orig = self.children@;
        let n = self.children.len();
        let mut mins: Vec<u32> = Vec::new();
        let mut i: usize = 0;
        while i < n
            invariant
                i <= n,
                n == self.children@.len(),
                self.children@ == orig,
                self.dir == dir,
                mins@.len() == i,
                forall|j: int| 0 <= j < i ==> mins@[j] == cached_mins(orig, dir)[j],
            decreases n - i,
        {
            mins.push(length(self.children[i].last_layout_req().along(dir).lower()));
            i = i + 1;
        }
        let ghost model = cached_mins(orig, dir);
        assert(lengths(mins@) =~= model);
        assert forall|j: int| 0 <= j < orig.len() implies (#[trigger] self.children@[j]).ready() by {
            assert(old(self).children()[j].ready());
        }
        let size = bounds.size();
        let avail = size[dir.index()];
        let sizes = allocate(&mins, avail);
        proof {
            lemma_placed(model, avail as nat, 0);
        }
        let mut offset: u32 = 0;
        let mut i: usize = 0;
        while i < n
            invariant
                i <= n,
                n == self.children@.len(),
                n == orig.len(),
                self.dir == dir,
                model == cached_mins(orig, dir),
                sizes@.len() == n,
                forall|j: int| 0 <= j < n ==> sizes@[j] == #[trigger] share(model, avail as nat, j),
                offset == placed(model, avail as nat, i as nat),
                size[0] == bounds@.w,
                size[1] == bounds@.h,
                avail == extent(bounds@, dir),
                forall|j: int| 0 <= j < n ==> (#[trigger] self.children@[j]).ready(),
                forall|j: int| 0 <= j < n ==> (#[trigger] self.children@[j]).req() == orig[j].req(),
                forall|j: int| 0 <= j < n ==> (#[trigger] self.children@[j]).cached() == orig[j].cached(),
                forall|j: int| 0 <= j < n && orig[j].measured() ==> (#[trigger] self.children@[j]).measured(),
                forall|j: int| 0 <= j < n ==> (#[trigger] orig[j]).made_as(&self.children@[j]),
                forall|j: int| i <= j < n ==> (#[trigger] self.children@[j]) == orig[j],
                forall|j: int| 0 <= j < i && orig[j].measured() ==> (#[trigger] self.children@[j]).in_place(),
                forall|j: int| 0 <= j < i && orig[j].measured() ==> (#[trigger] self.children@[j]).alert(),
                forall|j: int| 0 <= j < n ==> (#[trigger] orig[j]).asks_as(&self.children@[j]),
                forall|j: int|
                    0 <= j < i ==> (#[trigger] self.children@[j]).fitted(
                        slot(
                            bounds@,
                            dir,
                            placed(model, avail as nat, j as nat) as int,
                            share(model, avail as nat, j) as int,
                        ),
                    ),
            decreases n - i,
        {
            let sz = sizes[i];
            proof {
                lemma_placed(model, avail as nat, i as nat);
                assert(sz == share(model, avail as nat, i as int));
            }
            let ghost before = self.children@;
            assert(before[i as int] == orig[i as int]);
            let rect = match dir {
                Direction::Horizontal => bounds.window([offset as i64, 0], [sz, size[1]]),
                Direction::Vertical => bounds.window([0, offset as i64], [size[0], sz]),
            };
            self.children[i].fit_bounds(rect);
            assert(forall|j: int| 0 <= j < n && j != i ==> self.children@[j] == before[j]);
            offset = offset + sz;
            i = i + 1;
        }
        proof {
            lemma_stacked_same(self.children@, orig, dir, orig.len());
            assert(cached_mins(self.children@, dir) =~= model);
            old(self).lemma_made_alike(self);
            old(self).lemma_asks_alike(self);
            assert forall|j: int| 0 <= j < n implies (#[trigger] self.children()[j]).region() == old(
                self,
            ).place(bounds@, j) by {
                assert(self.children@[j].fitted(self.place(bounds@, j)));
            }
            if old(self).measured() {
                assert forall|j: int| 0 <= j < n implies (#[trigger] self.children()[j]).in_place()
                    && self.children()[j].measured() && self.children()[j].region() == self.place(
                    bounds@,
                    j,
                ) by {
                    assert(old(self).children()[j].measured());
                    assert(self.children@[j].fitted(self.place(bounds@, j)));
                }
                self.lemma_in_place(bounds@);
                assert forall|j: int| 0 <= j < n implies (#[trigger] self.children()[j]).alert() by {
                    assert(old(self).children()[j].measured());
                    assert(self.children@[j].alert());
                }
                self.lemma_alert(bounds@);
            }
        }
    }

    fn handle(&mut self, data: &mut D, event: &Event, bounds: Bounds, resp: &mut Response) -> (consumed:
        bool)
        ensures
            old(self).kept_as(final(self)),
    {
        let ghost orig = self.children@;
        let ghost dir = self.dir;
        let ghost mut trace: Seq<D> = seq![*data];
        let n = self.children.len();
        assert forall|j: int| 0 <= j < n implies (#[trigger] orig[j]).settled_as(&self.children@[j])
            && self.children@[j].ready() by {
            assert(old(self).children()[j].ready());
        }
        let mut i: usize = 0;
        while i < n
            invariant
                i <= n,
                n == orig.len(),
                self.children@.len() == n,
                self.dir == dir,
                orig == old(self).children(),
                dir == old(self).dir(),
                reached(orig, *event, i as int),
                forall|j: int| 0 <= j < n ==> (#[trigger] self.children@[j]).ready(),
                forall|j: int| i <= j < n ==> (#[trigger] self.children@[j]) == orig[j],
                forall|j: int| 0 <= j < n ==> (#[trigger] orig[j]).settled_as(&self.children@[j]),
                *event is Click ==> forall|j: int|
                    0 <= j < n ==> (#[trigger] orig[j]).calm_as(&self.children@[j]),
                resp.wants_redraw() == (old(resp).wants_redraw() || exists|j: int|
                    0 <= j < i && (#[trigger] orig[j]).redraws(*event)),
                trace.len() == i + 1,
                trace[0] == *old(data),
                trace[i as int] == *data,
                forall|j: int| 0 <= j < i ==> step(orig, *event, j, #[trigger] trace[j], trace[j + 1]),
            decreases n - i,
        {
            let ghost before = self.children@;
            let ghost mid = *data;
            assert(before[i as int] == orig[i as int]);
            let hit = self.children[i].handle(data, event, resp);
            proof {
                let longer = trace.push(*data);
                assert(step(orig, *event, i as int, mid, *data));
                assert forall|j: int| 0 <= j < i + 1 implies step(
                    orig,
                    *event,
                    j,
                    #[trigger] longer[j],
                    longer[j + 1],
                ) by {
                    if j < i {
                        assert(step(orig, *event, j, trace[j], trace[j + 1]));
                    }
                }
                trace = longer;
            }
            assert(forall|j: int| 0 <= j < n && j != i ==> self.children@[j] == before[j]);
            assert(orig[i as int].settled_as(&self.children@[i as int]));
            if hit {
                proof {
                    old(self).lemma_kept(self);
                    if *event is Click {
                        old(self).lemma_calm(self);
                    }
                    assert(orig[i as int].hits(*event));
                    assert(reached(orig, *event, i as int));
                    if orig[i as int].redraws(*event) {
                        assert(old(self).redraws(*event, bounds@));
                    }
                    if old(self).redraws(*event, bounds@) {
                        let j = choose|j: int|
                            0 <= j < orig.len() && reached(orig, *event, j) && (#[trigger] orig[j]).redraws(
                                *event,
                            );
                        assert(j <= i);
                    }
                    let rest = Seq::new((n - i - 1) as nat, |k: int| *data);
                    let whole = trace + rest;
                    assert forall|j: int| 0 <= j < n implies step(
                        orig,
                        *event,
                        j,
                        #[trigger] whole[j],
                        whole[j + 1],
                    ) by {
                        if j < i + 1 {
                            assert(step(orig, *event, j, trace[j], trace[j + 1]));
                        } else {
                            assert(!reached(orig, *event, j));
                        }
                    }
                    assert(relays(orig, *event, whole, *old(data), *data));
                }
                return true;
            }
            i = i + 1;
        }
        proof {
            assert(relays(orig, *event, trace, *old(data), *data));
            old(self).lemma_kept(self);
            if *event is Click {
                old(self).lemma_calm(self);
            }
            if old(self).hits(*event, bounds@) {
                let j = choose|j: int| 0 <= j < orig.len() && (#[trigger] orig[j]).hits(*event);
                assert(false);
            }
        }
        false
    }

    fn draw(&mut self, data: &mut D, bounds: Bounds, canvas: &mut Canvas)
        ensures
            old(self).kept_as(final(self)),
    {
        let ghost orig = self.children@;
        let ghost dir = self.dir;
        let ghost mut trace: Seq<D> = seq![*data];
        let ghost mut drawn: Seq<Seq<Shape>> = seq![Seq::<Shape>::empty()];
        let n = self.children.len();
        assert forall|j: int| 0 <= j < n implies (#[trigger] orig[j]).settled_as(&self.children@[j])
            && self.children@[j].ready() by {
            assert(old(self).children()[j].ready());
        }
        assert(canvas@ == old(canvas)@ + drawn[0]);
        let mut i: usize = 0;
        while i < n
            invariant
                i <= n,
                n == orig.len(),
                self.children@.len() == n,
                self.dir == dir,
                orig == old(self).children(),
                dir == old(self).dir(),
                forall|j: int| 0 <= j < n ==> (#[trigger] self.children@[j]).ready(),
                forall|j: int| i <= j < n ==> (#[trigger] self.children@[j]) == orig[j],
                forall|j: int| 0 <= j < n ==> (#[trigger] orig[j]).settled_as(&self.children@[j]),
                forall|j: int| 0 <= j < n ==> (#[trigger] orig[j]).calm_as(&self.children@[j]),
                trace.len() == i + 1,
                drawn.len() == i + 1,
                trace[0] == *old(data),
                trace[i as int] == *data,
                drawn[0] == Seq::<Shape>::empty(),
                canvas@ == old(canvas)@ + drawn[i as int],
                forall|j: int|
                    0 <= j < i ==> adds(orig[j], #[trigger] trace[j], trace[j + 1], drawn[j], drawn[j + 1]),
            decreases n - i,
        {
            let ghost before = self.children@;
            let ghost mid = *data;
            let ghost had = canvas@;
            assert(before[i as int] == orig[i as int]);
            self.children[i].draw(data, canvas);
            assert(forall|j: int| 0 <= j < n && j != i ==> self.children@[j] == before[j]);
            assert(orig[i as int].settled_as(&self.children@[i as int]));
            proof {
                let part = choose|part: Seq<Shape>|
                    canvas@ == had + part && #[trigger] orig[i as int].paints(mid, *data, part);
                let has = drawn[i as int] + part;
                assert(canvas@ == old(canvas)@ + has);
                let longer = trace.push(*data);
                let more = drawn.push(has);
                assert(adds(orig[i as int], mid, *data, drawn[i as int], has));
                assert forall|j: int| 0 <= j < i + 1 implies adds(
                    orig[j],
                    #[trigger] longer[j],
                    longer[j + 1],
                    more[j],
                    more[j + 1],
                ) by {
                    if j < i {
                        assert(adds(orig[j], trace[j], trace[j + 1], drawn[j], drawn[j + 1]));
                    }
                }
                trace = longer;
                drawn = more;
            }
            i = i + 1;
        }
        proof {
            assert(shows(old(self).children(), trace, drawn, *old(data), *data, drawn[n as int]));
            assert(old(self).paints(bounds@, *old(data), *data, drawn[n as int]));
            old(self).lemma_kept(self);
            old(self).lemma_calm(self);
        }
    }
}

impl<'a, D> List<'a, D> {
    /// Whether `other` is this list after a call that keeps what was
    /// measured and arranged: the same axis and as many children, each of
    /// them kept as well.
    pub open spec fn kept_as(&self, other: &Self) -> bool {
        &&& other.dir() == self.dir()
        &&& other.children().len() == self.children().len()
        &&& forall|j: int|
            0 <= j < self.children().len() ==> (#[trigger] self.children()[j]).settled_as(
                &other.children()[j],
            )
    }

    /// A list that was kept answers as before.
    pub proof fn lemma_kept(&self, other: &Self)
        requires
            self.kept_as(other),
        ensures
            other.ready(),
            other.req() == self.req(),
            self.measured() ==> other.measured(),
            forall|b: Rect| self.fitted(b) ==> other.fitted(b),
            forall|e: Event, b: Rect| #[trigger] other.hits(e, b) == self.hits(e, b),
            forall|e: Event, b: Rect, d0: D, d1: D| #[trigger]
                other.reacts(e, b, d0, d1) == self.reacts(e, b, d0, d1),
            forall|e: Event, b: Rect| #[trigger] other.aims(e, b) == self.aims(e, b),
            forall|e: Event, b: Rect, d0: D, d1: D| #[trigger]
                other.acts(e, b, d0, d1) == self.acts(e, b, d0, d1),
    {
        assert forall|j: int| 0 <= j < self.children().len() implies (#[trigger] self.children()[j]).made_as(
            &other.children()[j],
        ) && other.children()[j].req() == self.children()[j].req() by {
            assert(self.children()[j].settled_as(&other.children()[j]));
        }
        self.lemma_made_alike(other);
        let a = self.children();
        assert forall|e: Event, b: Rect, d0: D, d1: D| #[trigger]
            other.reacts(e, b, d0, d1) == self.reacts(e, b, d0, d1) by {
            assert forall|trace: Seq<D>|
                relays(self.children(), e, trace, d0, d1) == #[trigger] relays(
                    other.children(),
                    e,
                    trace,
                    d0,
                    d1,
                ) by {
                lemma_relays_same(self.children(), other.children(), e, trace, d0, d1);
            }
            if self.reacts(e, b, d0, d1) {
                let trace = choose|trace: Seq<D>| relays(self.children(), e, trace, d0, d1);
                assert(relays(other.children(), e, trace, d0, d1));
            }
            if other.reacts(e, b, d0, d1) {
                let trace = choose|trace: Seq<D>| relays(other.children(), e, trace, d0, d1);
                assert(relays(self.children(), e, trace, d0, d1));
            }
        }
        let c = other.children();
        let dir = self.dir();
        assert forall|j: int| 0 <= j < c.len() implies (#[trigger] c[j]).ready() by {
            assert(a[j].settled_as(&c[j]));
        }
        assert forall|j: int| 0 <= j < a.len() implies (#[trigger] c[j]).req() == a[j].req() by {
            assert(a[j].settled_as(&c[j]));
        }
        lemma_stacked_same(c, a, dir, a.len());
        if self.measured() {
            assert forall|j: int| 0 <= j < c.len() implies (#[trigger] c[j]).measured() by {
                assert(a[j].settled_as(&c[j]));
                assert(a[j].measured());
            }
        }
        assert(cached_mins(c, dir) =~= cached_mins(a, dir)) by {
            assert forall|j: int| 0 <= j < a.len() implies cached_mins(c, dir)[j] == cached_mins(
                a,
                dir,
            )[j] by {
                assert(a[j].settled_as(&c[j]));
            }
        }
        assert forall|b: Rect| self.fitted(b) implies other.fitted(b) by {
            assert forall|j: int| 0 <= j < c.len() implies (#[trigger] c[j]).fitted(
                other.place(b, j),
            ) by {
                assert(a[j].settled_as(&c[j]));
                assert(a[j].fitted(self.place(b, j)));
            }
        }
        assert forall|e: Event, b: Rect| #[trigger] other.hits(e, b) == self.hits(e, b) by {
            if any_hits(c, e) {
                let i = choose|i: int| 0 <= i < c.len() && (#[trigger] c[i]).hits(e);
                assert(a[i].settled_as(&c[i]));
                assert(a[i].hits(e));
            }
            if any_hits(a, e) {
                let i = choose|i: int| 0 <= i < a.len() && (#[trigger] a[i]).hits(e);
                assert(a[i].settled_as(&c[i]));
                assert(c[i].hits(e));
            }
        }
    }

    /// A list made as this one answers alike once measured and arranged alike.
    pub proof fn lemma_made_alike(&self, other: &Self)
        requires
            other.dir() == self.dir(),
            other.children().len() == self.children().len(),
            forall|j: int|
                0 <= j < self.children().len() ==> (#[trigger] self.children()[j]).made_as(
                    &other.children()[j],
                ) && other.children()[j].req() == self.children()[j].req(),
        ensures
            forall|b: Rect, i: int| #[trigger] other.spot(b, i) == self.spot(b, i),
            forall|e: Event, b: Rect, j: int|
                0 <= j <= self.children().len() ==> #[trigger] other.would_reach(e, b, j)
                    == self.would_reach(e, b, j),
            forall|e: Event, b: Rect| #[trigger] other.aims(e, b) == self.aims(e, b),
            forall|e: Event, b: Rect, d0: D, d1: D| #[trigger]
                other.acts(e, b, d0, d1) == self.acts(e, b, d0, d1),
    {
        let a = self.children();
        let c = other.children();
        let n = a.len();
        assert(needed_mins(c, self.dir()) =~= needed_mins(a, self.dir())) by {
            assert forall|j: int| 0 <= j < n implies needed_mins(c, self.dir())[j] == needed_mins(
                a,
                self.dir(),
            )[j] by {
                assert(a[j].made_as(&c[j]));
            }
        }
        assert forall|e: Event, b: Rect, j: int| 0 <= j < n implies (#[trigger] c[j].aims(
            e,
            other.spot(b, j),
        )) == a[j].aims(e, self.spot(b, j)) by {
            assert(a[j].made_as(&c[j]));
        }
        assert forall|e: Event, b: Rect, j: int| 0 <= j <= n implies #[trigger] other.would_reach(
            e,
            b,
            j,
        ) == self.would_reach(e, b, j) by {
            if self.would_reach(e, b, j) {
                assert forall|k: int| 0 <= k < j implies !(#[trigger] c[k]).aims(
                    e,
                    other.spot(b, k),
                ) by {
                    assert(a[k].made_as(&c[k]));
                    assert(!a[k].aims(e, self.spot(b, k)));
                }
            }
            if other.would_reach(e, b, j) {
                assert forall|k: int| 0 <= k < j implies !(#[trigger] a[k]).aims(
                    e,
                    self.spot(b, k),
                ) by {
                    assert(a[k].made_as(&c[k]));
                    assert(!c[k].aims(e, other.spot(b, k)));
                }
            }
        }
        assert forall|e: Event, b: Rect| #[trigger] other.aims(e, b) == self.aims(e, b) by {
            if self.aims(e, b) {
                let i = choose|i: int| 0 <= i < n && (#[trigger] a[i]).aims(e, self.spot(b, i));
                assert(a[i].made_as(&c[i]));
                assert(c[i].aims(e, other.spot(b, i)));
            }
            if other.aims(e, b) {
                let i = choose|i: int| 0 <= i < n && (#[trigger] c[i]).aims(e, other.spot(b, i));
                assert(a[i].made_as(&c[i]));
                assert(a[i].aims(e, self.spot(b, i)));
            }
        }
        assert forall|e: Event, b: Rect, i: int, m: D, x: D| 0 <= i < n implies #[trigger] other.would_step(
            e,
            b,
            i,
            m,
            x,
        ) == self.would_step(e, b, i, m, x) by {
            assert(a[i].made_as(&c[i]));
            assert(other.would_reach(e, b, i) == self.would_reach(e, b, i));
        }
        assert forall|e: Event, b: Rect, d0: D, d1: D| #[trigger]
            other.acts(e, b, d0, d1) == self.acts(e, b, d0, d1) by {
            if self.acts(e, b, d0, d1) {
                let trace = choose|trace: Seq<D>| self.would_relay(e, b, trace, d0, d1);
                assert forall|i: int| 0 <= i < n implies other.would_step(
                    e,
                    b,
                    i,
                    #[trigger] trace[i],
                    trace[i + 1],
                ) by {
                    assert(self.would_step(e, b, i, trace[i], trace[i + 1]));
                }
                assert(other.would_relay(e, b, trace, d0, d1));
            }
            if other.acts(e, b, d0, d1) {
                let trace = choose|trace: Seq<D>| other.would_relay(e, b, trace, d0, d1);
                assert forall|i: int| 0 <= i < n implies self.would_step(
                    e,
                    b,
                    i,
                    #[trigger] trace[i],
                    trace[i + 1],
                ) by {
                    assert(other.would_step(e, b, i, trace[i], trace[i + 1]));
                }
                assert(self.would_relay(e, b, trace, d0, d1));
            }
        }
    }

    /// A measured list whose children answer as they were arranged for,
    /// and were arranged as the list in `bounds` arranges them, itself
    /// answers as it would once measured and arranged in `bounds`.
    pub proof fn lemma_in_place(&self, bounds: Rect)
        requires
            forall|j: int|
                0 <= j < self.children().len() ==> (#[trigger] self.children()[j]).in_place()
                    && self.children()[j].measured() && self.children()[j].region() == self.place(
                    bounds,
                    j,
                ),
        ensures
            forall|j: int| 0 <= j < self.children().len() ==> self.spot(bounds, j) == self.place(bounds, j),
            forall|e: Event, j: int|
                0 <= j <= self.children().len() ==> #[trigger] reached(self.children(), e, j)
                    == self.would_reach(e, bounds, j),
            forall|e: Event| #[trigger] self.hits(e, bounds) == self.aims(e, bounds),
            forall|e: Event, d0: D, d1: D| #[trigger]
                self.reacts(e, bounds, d0, d1) == self.acts(e, bounds, d0, d1),
    {
        let a = self.children();
        let n = a.len();
        assert(needed_mins(a, self.dir()) =~= cached_mins(a, self.dir())) by {
            assert forall|j: int| 0 <= j < n implies needed_mins(a, self.dir())[j] == cached_mins(
                a,
                self.dir(),
            )[j] by {
                assert(a[j].measured());
            }
        }
        assert forall|j: int| 0 <= j < n implies self.spot(bounds, j) == self.place(bounds, j) by {}
        assert forall|e: Event, j: int| 0 <= j < n implies (#[trigger] a[j].hits(e)) == a[j].aims(
            e,
            self.spot(bounds, j),
        ) by {
            assert(a[j].in_place());
            assert(a[j].region() == self.place(bounds, j));
        }
        assert forall|e: Event, j: int| 0 <= j <= n implies #[trigger] reached(a, e, j)
            == self.would_reach(e, bounds, j) by {
            if reached(a, e, j) {
                assert forall|k: int| 0 <= k < j implies !(#[trigger] a[k]).aims(
                    e,
                    self.spot(bounds, k),
                ) by {
                    assert(!a[k].hits(e));
                }
            }
            if self.would_reach(e, bounds, j) {
                assert forall|k: int| 0 <= k < j implies !(#[trigger] a[k]).hits(e) by {
                    assert(!a[k].aims(e, self.spot(bounds, k)));
                    assert(a[k].hits(e) == a[k].aims(e, self.spot(bounds, k)));
                }
            }
        }
        assert forall|e: Event| #[trigger] self.hits(e, bounds) == self.aims(e, bounds) by {
            if any_hits(a, e) {
                let i = choose|i: int| 0 <= i < n && (#[trigger] a[i]).hits(e);
                assert(a[i].hits(e) == a[i].aims(e, self.spot(bounds, i)));
            }
            if self.aims(e, bounds) {
                let i = choose|i: int| 0 <= i < n && (#[trigger] a[i]).aims(e, self.spot(bounds, i));
                assert(a[i].hits(e) == a[i].aims(e, self.spot(bounds, i)));
            }
        }
        assert forall|e: Event, i: int, m: D, x: D| 0 <= i < n implies #[trigger] step(a, e, i, m, x)
            == self.would_step(e, bounds, i, m, x) by {
            assert(a[i].in_place());
            assert(a[i].region() == self.place(bounds, i));
            assert(reached(a, e, i) == self.would_reach(e, bounds, i));
            assert(a[i].reacts(e, m, x) == a[i].acts(e, a[i].region(), m, x));
        }
        assert forall|e: Event, d0: D, d1: D| #[trigger]
            self.reacts(e, bounds, d0, d1) == self.acts(e, bounds, d0, d1) by {
            if self.reacts(e, bounds, d0, d1) {
                let trace = choose|trace: Seq<D>| relays(a, e, trace, d0, d1);
                assert forall|i: int| 0 <= i < n implies self.would_step(
                    e,
                    bounds,
                    i,
                    #[trigger] trace[i],
                    trace[i + 1],
                ) by {
                    assert(step(a, e, i, trace[i], trace[i + 1]));
                }
                assert(self.would_relay(e, bounds, trace, d0, d1));
            }
            if self.acts(e, bounds, d0, d1) {
                let trace = choose|trace: Seq<D>| self.would_relay(e, bounds, trace, d0, d1);
                assert forall|i: int| 0 <= i < n implies step(
                    a,
                    e,
                    i,
                    #[trigger] trace[i],
                    trace[i + 1],
                ) by {
                    assert(self.would_step(e, bounds, i, trace[i], trace[i + 1]));
                }
                assert(relays(a, e, trace, d0, d1));
            }
        }
    }

    /// A list made as this one, whose children ask for redraws alike, asks
    /// for redraws alike once measured and arranged alike.
    pub proof fn lemma_asks_alike(&self, other: &Self)
        requires
            other.dir() == self.dir(),
            other.children().len() == self.children().len(),
            forall|j: int|
                0 <= j < self.children().len() ==> (#[trigger] self.children()[j]).made_as(
                    &other.children()[j],
                ) && other.children()[j].req() == self.children()[j].req(),
            forall|j: int|
                0 <= j < self.children().len() ==> (#[trigger] self.children()[j]).asks_as(
                    &other.children()[j],
                ),
        ensures
            forall|e: Event, b: Rect| #[trigger] other.asks(e, b) == self.asks(e, b),
    {
        self.lemma_made_alike(other);
        let a = self.children();
        let c = other.children();
        let n = a.len();
        assert forall|e: Event, b: Rect| #[trigger] other.asks(e, b) == self.asks(e, b) by {
            if self.asks(e, b) {
                let j = choose|j: int|
                    0 <= j < n && self.would_reach(e, b, j) && (#[trigger] a[j]).asks(
                        e,
                        self.spot(b, j),
                    );
                assert(a[j].asks_as(&c[j]));
                assert(other.would_reach(e, b, j));
                assert(c[j].asks(e, other.spot(b, j)));
            }
            if other.asks(e, b) {
                let j = choose|j: int|
                    0 <= j < n && other.would_reach(e, b, j) && (#[trigger] c[j]).asks(
                        e,
                        other.spot(b, j),
                    );
                assert(a[j].asks_as(&c[j]));
                assert(self.would_reach(e, b, j));
                assert(a[j].asks(e, self.spot(b, j)));
            }
        }
    }

    /// A list that was kept, whose children ask for redraws as before,
    /// asks for redraws as before.
    pub proof fn lemma_calm(&self, other: &Self)
        requires
            self.kept_as(other),
            forall|j: int|
                0 <= j < self.children().len() ==> (#[trigger] self.children()[j]).calm_as(
                    &other.children()[j],
                ),
        ensures
            forall|e: Event, b: Rect| #[trigger] other.redraws(e, b) == self.redraws(e, b),
            forall|e: Event, b: Rect| #[trigger] other.asks(e, b) == self.asks(e, b),
    {
        let a = self.children();
        let c = other.children();
        let n = a.len();
        assert forall|j: int| 0 <= j < n implies (#[trigger] a[j]).made_as(&c[j]) && c[j].req()
            == a[j].req() && a[j].asks_as(&c[j]) by {
            assert(a[j].settled_as(&c[j]));
            assert(a[j].calm_as(&c[j]));
        }
        self.lemma_asks_alike(other);
        assert forall|e: Event, j: int| 0 <= j <= n implies #[trigger] reached(c, e, j) == reached(
            a,
            e,
            j,
        ) by {
            if reached(a, e, j) {
                assert forall|k: int| 0 <= k < j implies !(#[trigger] c[k]).hits(e) by {
                    assert(a[k].settled_as(&c[k]));
                    assert(!a[k].hits(e));
                }
            }
            if reached(c, e, j) {
                assert forall|k: int| 0 <= k < j implies !(#[trigger] a[k]).hits(e) by {
                    assert(a[k].settled_as(&c[k]));
                    assert(!c[k].hits(e));
                }
            }
        }
        assert forall|e: Event, b: Rect| #[trigger] other.redraws(e, b) == self.redraws(e, b) by {
            if self.redraws(e, b) {
                let j = choose|j: int| 0 <= j < n && reached(a, e, j) && (#[trigger] a[j]).redraws(e);
                assert(a[j].settled_as(&c[j]));
                assert(a[j].calm_as(&c[j]));
                assert(reached(c, e, j));
                assert(c[j].redraws(e));
            }
            if other.redraws(e, b) {
                let j = choose|j: int| 0 <= j < n && reached(c, e, j) && (#[trigger] c[j]).redraws(e);
                assert(a[j].settled_as(&c[j]));
                assert(a[j].calm_as(&c[j]));
                assert(reached(a, e, j));
                assert(a[j].redraws(e));
            }
        }
    }

    /// A measured list whose children ask for redraws as they were
    /// arranged for, and were arranged as the list in `bounds` arranges
    /// them, itself asks as it would once measured and arranged in `bounds`.
    pub proof fn lemma_alert(&self, bounds: Rect)
        requires
            forall|j: int|
                0 <= j < self.children().len() ==> (#[trigger] self.children()[j]).in_place()
                    && self.children()[j].measured() && self.children()[j].region() == self.place(
                    bounds,
                    j,
                ),
            forall|j: int| 0 <= j < self.children().len() ==> (#[trigger] self.children()[j]).alert(),
        ensures
            forall|e: Event| #[trigger] self.redraws(e, bounds) == self.asks(e, bounds),
    {
        self.lemma_in_place(bounds);
        let a = self.children();
        let n = a.len();
        assert forall|e: Event| #[trigger] self.redraws(e, bounds) == self.asks(e, bounds) by {
            if self.redraws(e, bounds) {
                let j = choose|j: int| 0 <= j < n && reached(a, e, j) && (#[trigger] a[j]).redraws(e);
                assert(a[j].alert());
                assert(a[j].region() == self.place(bounds, j));
                assert(self.spot(bounds, j) == self.place(bounds, j));
                assert(self.would_reach(e, bounds, j));
                assert(a[j].asks(e, self.spot(bounds, j)));
            }
            if self.asks(e, bounds) {
                let j = choose|j: int|
                    0 <= j < n && self.would_reach(e, bounds, j) && (#[trigger] a[j]).asks(
                        e,
                        self.spot(bounds, j),
                    );
                assert(a[j].alert());
                assert(a[j].region() == self.place(bounds, j));
                assert(self.spot(bounds, j) == self.place(bounds, j));
                assert(reached(a, e, j));
                assert(a[j].redraws(e));
            }
        }
    }
}

} // verus!
