use vstd::prelude::*;
use std::marker::PhantomData;
use crate::canvas::{Canvas, Shape};
use crate::event::{Callback, Handler, Mapped};
use crate::layout::{Bounds, LayoutReq, Rect, ReqModel};
use crate::widget::Widget;
use crate::{Event, Response};

verus! {

/// A widget with a margin around it. A negative margin takes from what
/// the widget asks for and leaves its rectangle as it is.
#[verifier::reject_recursive_types(D)]
pub struct Padded<'a, D, W: Widget<'a, D>> {
    padding: i64,
    inner: W,
    phantom: PhantomData<&'a D>,
}

impl<'a, D, W: Widget<'a, D>> Padded<'a, D, W> {
    /// The width of the margin.
    pub closed spec fn padding(&self) -> int {
        self.padding as int
    }

    /// The widget inside the margin.
    pub closed spec fn inner(&self) -> W {
        self.inner
    }

    /// What is left of `bounds` inside the margin.
    pub open spec fn inside(&self, bounds: Rect) -> Rect {
        bounds.padded_window(self.padding())
    }

    /// `inner` with a margin of `padding` on every side.
    pub fn new(inner: W, padding: i64) -> (p: Self)
        ensures
            p.inner() == inner,
            p.padding() == padding,
    {
        Self { padding, inner, phantom: PhantomData }
    }
}

impl<'a, D, W: Widget<'a, D>> Widget<'a, D> for Padded<'a, D, W> {
    open spec fn ready(&self) -> bool {
        self.inner().ready()
    }

    open spec fn req(&self) -> ReqModel {
        self.inner().req().padded(self.padding()).capped()
    }

    open spec fn measured(&self) -> bool {
        self.inner().measured()
    }

    open spec fn fitted(&self, bounds: Rect) -> bool {
        self.inner().fitted(self.inside(bounds))
    }

    open spec fn hits(&self, event: Event, bounds: Rect) -> bool {
        self.inner().hits(event, self.inside(bounds))
    }

    open spec fn redraws(&self, event: Event, bounds: Rect) -> bool {
        self.inner().redraws(event, self.inside(bounds))
    }

    open spec fn reacts(&self, event: Event, bounds: Rect, before: D, after: D) -> bool {
        self.inner().reacts(event, self.inside(bounds), before, after)
    }

    open spec fn aims(&self, event: Event, bounds: Rect) -> bool {
        self.inner().aims(event, self.inside(bounds))
    }

    open spec fn acts(&self, event: Event, bounds: Rect, before: D, after: D) -> bool {
        self.inner().acts(event, self.inside(bounds), before, after)
    }

    open spec fn asks(&self, event: Event, bounds: Rect) -> bool {
        self.inner().asks(event, self.inside(bounds))
    }

    open spec fn paints(&self, bounds: Rect, before: D, after: D, shapes: Seq<Shape>) -> bool {
        self.inner().paints(self.inside(bounds), before, after, shapes)
    }

    open spec fn regions(&self) -> Seq<Rect> {
        self.inner().regions()
    }

    fn child_count(&self) -> (n: usize) {
        self.inner.child_count()
    }

    fn child_bounds(&self, i: usize) -> (b: Option<Bounds>) {
        self.inner.child_bounds(i)
    }

    fn get_layout_req(&mut self) -> (r: LayoutReq)
        ensures
            final(self).padding() == old(self).padding(),
    {
        self.inner.get_layout_req().padded(self.padding)
    }

    fn fit_bounds(&mut self, bounds: Bounds)
        ensures
            final(self).padding() == old(self).padding(),
    {
        self.inner.fit_bounds(bounds.padded_window(self.padding))
    }

    fn handle(&mut self, data: &mut D, event: &Event, bounds: Bounds, resp: &mut Response) -> (consumed:
        bool)
        ensures
            final(self).padding() == old(self).padding(),
    {
        self.inner.handle(data, event, bounds.padded_window(self.padding), resp)
    }

    fn draw(&mut self, data: &mut D, bounds: Bounds, canvas: &mut Canvas)
        ensures
            final(self).padding() == old(self).padding(),
    {
        self.inner.draw(data, bounds.padded_window(self.padding), canvas);
        proof {
            let shapes = choose|shapes: Seq<Shape>|
                canvas@ == old(canvas)@ + shapes && #[trigger] old(self).inner.paints(
                    old(self).inside(bounds@),
                    *old(data),
                    *data,
                    shapes,
                );
            assert(old(self).paints(bounds@, *old(data), *data, shapes));
        }
    }
}

impl<'a, D: 'a, E, W: 'a + Handler<'a, D, E>> Handler<'a, D, E> for Padded<'a, D, W> {
    open spec fn attached(&self) -> bool {
        self.inner().attached()
    }

    open spec fn reaction(&self, before: D, after: D) -> bool {
        self.inner().reaction(before, after)
    }

    open spec fn but_reaction(&self, other: &Self) -> bool {
        &&& other.padding() == self.padding()
        &&& self.inner().but_reaction(&other.inner())
    }

    fn attach<F: 'a + Callback<D, E, Self>>(&mut self, f: F)
        ensures
            final(self).padding() == old(self).padding(),
    {
        self.inner.attach(Mapped { inner: f, widget: PhantomData })
    }
}

} // verus!
