use vstd::prelude::*;
use crate::canvas::{Canvas, Shape};
use crate::layout::{Bounds, LayoutReq, Rect, ReqModel};
use crate::widget::Widget;
use crate::{Event, Response};

verus! {

/// One widget of any type, together with the rectangle it was last given
/// and the requirement it last reported.
#[verifier::reject_recursive_types(D)]
pub struct Element<'a, D> {
    widget: Box<dyn Widget<'a, D> + 'a>,
    bounds: Bounds,
    last_layout: LayoutReq,
}

/// A widget on its way into an element. It behaves as the widget it holds.
struct Held<W> {
    inner: W,
}

impl<'a, D, W: Widget<'a, D>> Widget<'a, D> for Held<W> {
    closed spec fn ready(&self) -> bool {
        self.inner.ready()
    }

    closed spec fn req(&self) -> ReqModel {
        self.inner.req()
    }

    closed spec fn measured(&self) -> bool {
        self.inner.measured()
    }

    closed spec fn fitted(&self, bounds: Rect) -> bool {
        self.inner.fitted(bounds)
    }

    closed spec fn hits(&self, event: Event, bounds: Rect) -> bool {
        self.inner.hits(event, bounds)
    }

    closed spec fn redraws(&self, event: Event, bounds: Rect) -> bool {
        self.inner.redraws(event, bounds)
    }

    closed spec fn reacts(&self, event: Event, bounds: Rect, before: D, after: D) -> bool {
        self.inner.reacts(event, bounds, before, after)
    }

    closed spec fn aims(&self, event: Event, bounds: Rect) -> bool {
        self.inner.aims(event, bounds)
    }

    closed spec fn acts(&self, event: Event, bounds: Rect, before: D, after: D) -> bool {
        self.inner.acts(event, bounds, before, after)
    }

    closed spec fn asks(&self, event: Event, bounds: Rect) -> bool {
        self.inner.asks(event, bounds)
    }

    closed spec fn paints(&self, bounds: Rect, before: D, after: D, shapes: Seq<Shape>) -> bool {
        self.inner.paints(bounds, before, after, shapes)
    }

    closed spec fn regions(&self) -> Seq<Rect> {
        self.inner.regions()
    }

    fn child_count(&self) -> (n: usize) {
        self.inner.child_count()
    }

    fn child_bounds(&self, i: usize) -> (b: Option<Bounds>) {
        self.inner.child_bounds(i)
    }

    fn get_layout_req(&mut self) -> (r: LayoutReq) {
        self.inner.get_layout_req()
    }

    fn fit_bounds(&mut self, bounds: Bounds) {
        self.inner.fit_bounds(bounds)
    }

    fn handle(&mut self, data: &mut D, event: &Event, bounds: Bounds, resp: &mut Response) -> (consumed:
        bool) {
        self.inner.handle(data, event, bounds, resp)
    }

    fn draw(&mut self, data: &mut D, bounds: Bounds, canvas: &mut Canvas) {
        self.inner.draw(data, bounds, canvas);
        proof {
            let shapes = choose|shapes: Seq<Shape>|
                canvas@ == old(canvas)@ + shapes && #[trigger] old(self).inner.paints(
                    bounds@,
                    *old(data),
                    *data,
                    shapes,
                );
            assert(old(self).paints(bounds@, *old(data), *data, shapes));
        }
    }
}

impl<'a, D> Element<'a, D> {
    /// The widget inside.
    pub closed spec fn widget(&self) -> &Box<dyn Widget<'a, D> + 'a> {
        &self.widget
    }

    /// The rectangle last given to the element.
    pub closed spec fn region(&self) -> Rect {
        self.bounds@
    }

    /// The requirement last reported by the widget.
    pub closed spec fn cached(&self) -> ReqModel {
        self.last_layout@
    }

    pub open spec fn ready(&self) -> bool {
        self.widget().ready()
    }

    pub open spec fn req(&self) -> ReqModel {
        self.widget().req()
    }

    /// Whether this element and every element below it remember the
    /// requirement of their widget.
    pub open spec fn measured(&self) -> bool {
        self.cached() == self.req() && self.widget().measured()
    }

    /// Whether this element has the rectangle `bounds`, and the elements
    /// below it the ones that follow from it.
    pub open spec fn fitted(&self, bounds: Rect) -> bool {
        self.region() == bounds && self.widget().fitted(bounds)
    }

    /// Whether the element consumes `event`.
    pub open spec fn hits(&self, event: Event) -> bool {
        self.widget().hits(event, self.region())
    }

    /// Whether the element asks for a redraw on `event`.
    pub open spec fn redraws(&self, event: Event) -> bool {
        self.widget().redraws(event, self.region())
    }

    /// Whether the element may turn the application state `before` into
    /// `after` on `event`.
    pub open spec fn reacts(&self, event: Event, before: D, after: D) -> bool {
        self.widget().reacts(event, self.region(), before, after)
    }

    /// Whether the element, once measured and arranged in `bounds`,
    /// consumes `event`.
    pub open spec fn aims(&self, event: Event, bounds: Rect) -> bool {
        self.widget().aims(event, bounds)
    }

    /// Whether the element, once measured and arranged in `bounds`, may
    /// turn the application state `before` into `after` on `event`.
    pub open spec fn acts(&self, event: Event, bounds: Rect, before: D, after: D) -> bool {
        self.widget().acts(event, bounds, before, after)
    }

    /// Whether the element, once measured and arranged in `bounds`, asks
    /// for a redraw on `event`.
    pub open spec fn asks(&self, event: Event, bounds: Rect) -> bool {
        self.widget().asks(event, bounds)
    }

    /// Whether the element asks for a redraw when it would once measured
    /// and arranged in its rectangle.
    pub open spec fn alert(&self) -> bool {
        forall|e: Event| #[trigger] self.redraws(e) == self.asks(e, self.region())
    }

    /// Whether `other`, once measured and arranged, asks for redraws as
    /// this element does once measured and arranged alike.
    pub open spec fn asks_as(&self, other: &Self) -> bool {
        forall|e: Event, b: Rect| #[trigger] other.asks(e, b) == self.asks(e, b)
    }

    /// Whether `other` asks for redraws as this element does, arranged as
    /// it is and arranged anew.
    pub open spec fn calm_as(&self, other: &Self) -> bool {
        &&& forall|e: Event, b: Rect| #[trigger]
            other.widget().redraws(e, b) == self.widget().redraws(e, b)
        &&& self.asks_as(other)
    }

    /// Whether the element answers to events as what it remembers was
    /// arranged for: it consumes what it would consume once measured and
    /// arranged in its rectangle, and changes the application state alike.
    pub open spec fn in_place(&self) -> bool {
        &&& forall|e: Event| #[trigger] self.hits(e) == self.aims(e, self.region())
        &&& forall|e: Event, d0: D, d1: D| #[trigger]
            self.reacts(e, d0, d1) == self.acts(e, self.region(), d0, d1)
    }

    /// Whether `other` is made as this element is: once measured and
    /// arranged alike, the two answer to events alike.
    pub open spec fn made_as(&self, other: &Self) -> bool {
        &&& forall|e: Event, b: Rect| #[trigger] other.aims(e, b) == self.aims(e, b)
        &&& forall|e: Event, b: Rect, d0: D, d1: D| #[trigger]
            other.acts(e, b, d0, d1) == self.acts(e, b, d0, d1)
    }

    /// Whether the element, drawn, may append `shapes` and turn the
    /// application state `before` into `after`.
    pub open spec fn paints(&self, before: D, after: D, shapes: Seq<Shape>) -> bool {
        self.widget().paints(self.region(), before, after, shapes)
    }

    /// Whether this is the element made of `widget`: it answers as `widget`
    /// does, and has neither been measured nor arranged.
    pub open spec fn holds<W: Widget<'a, D>>(&self, widget: W) -> bool {
        &&& self.region() == Rect::global(0, 0)
        &&& self.cached() == ReqModel::any()
        &&& self.widget().ready() == widget.ready()
        &&& self.widget().req() == widget.req()
        &&& self.widget().measured() == widget.measured()
        &&& forall|b: Rect| #[trigger] self.widget().fitted(b) == widget.fitted(b)
        &&& forall|e: Event, b: Rect| #[trigger] self.widget().hits(e, b) == widget.hits(e, b)
        &&& forall|e: Event, b: Rect| #[trigger]
            self.widget().redraws(e, b) == widget.redraws(e, b)
        &&& forall|e: Event, b: Rect, d0: D, d1: D| #[trigger]
            self.widget().reacts(e, b, d0, d1) == widget.reacts(e, b, d0, d1)
        &&& forall|b: Rect, d0: D, d1: D, shapes: Seq<Shape>| #[trigger]
            self.widget().paints(b, d0, d1, shapes) == widget.paints(b, d0, d1, shapes)
        &&& forall|e: Event, b: Rect| #[trigger] self.widget().aims(e, b) == widget.aims(e, b)
        &&& forall|e: Event, b: Rect, d0: D, d1: D| #[trigger]
            self.widget().acts(e, b, d0, d1) == widget.acts(e, b, d0, d1)
        &&& forall|e: Event, b: Rect| #[trigger] self.widget().asks(e, b) == widget.asks(e, b)
        &&& self.widget().regions() == widget.regions()
    }

    /// Whether `other` is this element after a call that keeps what was
    /// measured and arranged: the same rectangle, cache, requirement and
    /// answers to events.
    pub open spec fn settled_as(&self, other: &Self) -> bool {
        &&& other.ready()
        &&& other.region() == self.region()
        &&& other.cached() == self.cached()
        &&& other.req() == self.req()
        &&& self.widget().measured() ==> other.widget().measured()
        &&& forall|b: Rect| self.widget().fitted(b) ==> other.widget().fitted(b)
        &&& forall|e: Event, b: Rect| other.widget().hits(e, b) == self.widget().hits(e, b)
        &&& forall|e: Event, b: Rect, d0: D, d1: D| #[trigger]
            other.widget().reacts(e, b, d0, d1) == self.widget().reacts(e, b, d0, d1)
        &&& self.made_as(other)
    }

    /// An element that answered as it was arranged for still does so
    /// after a call that keeps what was measured and arranged.
    pub proof fn lemma_stays_in_place(&self, other: &Self)
        requires
            self.settled_as(other),
            self.in_place(),
        ensures
            other.in_place(),
    {
        assert forall|e: Event| #[trigger] other.hits(e) == other.aims(e, other.region()) by {
            assert(self.hits(e) == self.aims(e, self.region()));
            assert(other.widget().hits(e, self.region()) == self.widget().hits(e, self.region()));
            assert(other.aims(e, self.region()) == self.aims(e, self.region()));
        }
        assert forall|e: Event, d0: D, d1: D| #[trigger]
            other.reacts(e, d0, d1) == other.acts(e, other.region(), d0, d1) by {
            assert(self.reacts(e, d0, d1) == self.acts(e, self.region(), d0, d1));
            assert(other.widget().reacts(e, self.region(), d0, d1) == self.widget().reacts(
                e,
                self.region(),
                d0,
                d1,
            ));
            assert(other.acts(e, self.region(), d0, d1) == self.acts(e, self.region(), d0, d1));
        }
    }

    /// An element that asked for redraws as it was arranged for still does
    /// so after a call that leaves its rectangle and its asking alone.
    pub proof fn lemma_stays_alert(&self, other: &Self)
        requires
            self.calm_as(other),
            other.region() == self.region(),
            self.alert(),
        ensures
            other.alert(),
    {
        assert forall|e: Event| #[trigger] other.redraws(e) == other.asks(e, other.region()) by {
            assert(self.redraws(e) == self.asks(e, self.region()));
            assert(other.widget().redraws(e, self.region()) == self.widget().redraws(
                e,
                self.region(),
            ));
            assert(other.asks(e, self.region()) == self.asks(e, self.region()));
        }
    }

    /// Keeping what was measured and arranged twice is keeping it.
    pub proof fn lemma_settled_through(&self, mid: &Self, last: &Self)
        requires
            self.settled_as(mid),
            mid.settled_as(last),
        ensures
            self.settled_as(last),
    {
        assert forall|bd: Rect| self.widget().fitted(bd) implies last.widget().fitted(bd) by {
            assert(mid.widget().fitted(bd));
        }
        assert forall|e: Event, bd: Rect| last.widget().hits(e, bd) == self.widget().hits(e, bd) by {
            assert(mid.widget().hits(e, bd) == self.widget().hits(e, bd));
        }
        assert forall|e: Event, bd: Rect, d0: D, d1: D| #[trigger]
            last.widget().reacts(e, bd, d0, d1) == self.widget().reacts(e, bd, d0, d1) by {
            assert(mid.widget().reacts(e, bd, d0, d1) == self.widget().reacts(e, bd, d0, d1));
        }
        assert forall|e: Event, bd: Rect| #[trigger] last.aims(e, bd) == self.aims(e, bd) by {
            assert(mid.aims(e, bd) == self.aims(e, bd));
        }
        assert forall|e: Event, bd: Rect, d0: D, d1: D| #[trigger]
            last.acts(e, bd, d0, d1) == self.acts(e, bd, d0, d1) by {
            assert(mid.acts(e, bd, d0, d1) == self.acts(e, bd, d0, d1));
        }
    }

    /// The element that holds `widget`, not yet measured or arranged.
    pub fn from_widget(widget: impl Widget<'a, D> + 'a) -> (e: Self)
        ensures
            e.holds(widget),
    {
        let e = Self {
            widget: Box::new(Held { inner: widget }),
            bounds: Bounds::global([0, 0]),
            last_layout: LayoutReq::any(),
        };
        assert(e.widget.ready() == (Held { inner: widget }).ready());
        assert(e.widget.ready() == widget.ready());
        e
    }

    /// How many elements stand directly below the widget inside.
    pub fn child_count(&self) -> (n: usize)
        ensures
            n == self.widget().regions().len(),
    {
        self.widget.child_count()
    }

    /// The rectangle of element `i` directly below the widget inside, if
    /// there is one.
    pub fn child_bounds(&self, i: usize) -> (b: Option<Bounds>)
        ensures
            b is Some == (i < self.widget().regions().len()),
            b matches Some(r) ==> r@ == self.widget().regions()[i as int],
    {
        self.widget.child_bounds(i)
    }

    /// The requirement found by the last measurement.
    pub fn last_layout_req(&self) -> (r: LayoutReq)
        ensures
            r@ == self.cached(),
    {
        self.last_layout
    }

    /// The rectangle given by the last arrangement.
    pub fn bounds(&self) -> (b: Bounds)
        ensures
            b@ == self.region(),
    {
        self.bounds
    }

    /// Measures the widget and remembers the result.
    pub fn get_layout_req(&mut self) -> (r: LayoutReq)
        requires
            old(self).ready(),
        ensures
            r@ == old(self).req(),
            final(self).ready(),
            final(self).req() == old(self).req(),
            final(self).region() == old(self).region(),
            final(self).measured(),
            old(self).made_as(final(self)),
            old(self).asks_as(final(self)),
    {
        let layout = self.widget.get_layout_req();
        self.last_layout = layout;
        layout
    }

    /// Takes `bounds` as the element's rectangle and arranges what is below.
    pub fn fit_bounds(&mut self, bounds: Bounds)
        requires
            old(self).ready(),
        ensures
            final(self).ready(),
            final(self).req() == old(self).req(),
            final(self).cached() == old(self).cached(),
            old(self).measured() ==> final(self).measured(),
            final(self).fitted(bounds@),
            old(self).widget().measured() ==> final(self).widget().measured(),
            old(self).made_as(final(self)),
            old(self).widget().measured() ==> final(self).in_place(),
            old(self).asks_as(final(self)),
            old(self).widget().measured() ==> final(self).alert(),
    {
        self.bounds = bounds;
        self.widget.fit_bounds(bounds);
    }

    /// Dispatches `event` to the widget. Returns whether it was consumed.
    pub fn handle(&mut self, data: &mut D, event: &Event, resp: &mut Response) -> (consumed: bool)
        requires
            old(self).ready(),
        ensures
            consumed == old(self).hits(*event),
            final(resp).wants_redraw() == (old(resp).wants_redraw() || old(self).redraws(*event)),
            old(self).reacts(*event, *old(data), *final(data)),
            old(self).settled_as(final(self)),
            old(self).in_place() ==> final(self).in_place(),
            *event is Click ==> old(self).calm_as(final(self)),
            *event is Click && old(self).alert() ==> final(self).alert(),
    {
        let consumed = self.widget.handle(data, event, self.bounds, resp);
        proof {
            if old(self).in_place() {
                old(self).lemma_stays_in_place(self);
            }
            if *event is Click && old(self).alert() {
                old(self).lemma_stays_alert(self);
            }
        }
        consumed
    }

    /// Appends the primitives that show the widget in its rectangle.
    pub fn draw(&mut self, data: &mut D, canvas: &mut Canvas)
        requires
            old(self).ready(),
        ensures
            exists|shapes: Seq<Shape>|
                final(canvas)@ == old(canvas)@ + shapes && #[trigger] old(self).paints(
                    *old(data),
                    *final(data),
                    shapes,
                ),
            old(self).settled_as(final(self)),
            old(self).in_place() ==> final(self).in_place(),
            old(self).calm_as(final(self)),
            old(self).alert() ==> final(self).alert(),
    {
        self.widget.draw(data, self.bounds, canvas);
        proof {
            let shapes = choose|shapes: Seq<Shape>|
                canvas@ == old(canvas)@ + shapes && #[trigger] old(self).widget.paints(
                    self.bounds@,
                    *old(data),
                    *data,
                    shapes,
                );
            assert(old(self).paints(*old(data), *data, shapes));
            if old(self).in_place() {
                old(self).lemma_stays_in_place(self);
            }
            if old(self).alert() {
                old(self).lemma_stays_alert(self);
            }
        }
    }
}

} // verus!
