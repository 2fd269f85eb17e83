use vstd::prelude::*;
use crate::canvas::{anchored, Canvas, Shape};
use crate::draw::Color;
use crate::layout::{Bounds, LayoutReq, Rect, ReqModel, Span, SpanModel};
use crate::state::State;
use crate::widget::{StateWidget, Widget};
use crate::{Event, Response};

verus! {

/// A line of text.
#[verifier::reject_recursive_types(D)]
pub struct Label<'a, D> {
    state: State<'a, D, String>,
}

impl<'a, D> Label<'a, D> {
    /// The binding to the text shown.
    pub closed spec fn state(&self) -> State<'a, D, String> {
        self.state
    }

    /// The primitive that shows `text` in `bounds`: black, 20 units high,
    /// at the top left corner.
    pub open spec fn shape(&self, bounds: Rect, text: Seq<char>) -> Shape {
        Shape::Text { pos: anchored(bounds, 0, 0), text, height: 20, col: Color::spec_black() }
    }

    /// The room every label asks for.
    pub open spec fn nominal() -> ReqModel {
        ReqModel { w: SpanModel::exactly(96), h: SpanModel::exactly(32) }
    }
}

impl<'a, D> StateWidget<'a, D, String> for Label<'a, D> {
    open spec fn made_from(&self, state: State<'a, D, String>) -> bool {
        self.state() == state
    }

    fn from_state(state: State<'a, D, String>) -> (w: Self)
        ensures
            w.state() == state,
    {
        Self { state }
    }
}

impl<'a, D> Widget<'a, D> for Label<'a, D> {
    open spec fn ready(&self) -> bool {
        self.state().ready()
    }

    open spec fn req(&self) -> ReqModel {
        Self::nominal()
    }

    open spec fn measured(&self) -> bool {
        true
    }

    open spec fn fitted(&self, bounds: Rect) -> bool {
        true
    }

    open spec fn hits(&self, event: Event, bounds: Rect) -> bool {
        false
    }

    open spec fn redraws(&self, event: Event, bounds: Rect) -> bool {
        false
    }

    open spec fn reacts(&self, event: Event, bounds: Rect, before: D, after: D) -> bool {
        after == before
    }

    open spec fn aims(&self, event: Event, bounds: Rect) -> bool {
        false
    }

    open spec fn acts(&self, event: Event, bounds: Rect, before: D, after: D) -> bool {
        after == before
    }

    open spec fn asks(&self, event: Event, bounds: Rect) -> bool {
        false
    }

    open spec fn paints(&self, bounds: Rect, before: D, after: D, shapes: Seq<Shape>) -> bool {
        exists|text: String| #[trigger]
            self.state().peeks(before, text, after) && shapes == seq![self.shape(bounds, text@)]
    }

    open spec fn regions(&self) -> Seq<Rect> {
        Seq::empty()
    }

    fn child_count(&self) -> (n: usize) {
        0
    }

    fn child_bounds(&self, i: usize) -> (b: Option<Bounds>) {
        None
    }

    fn get_layout_req(&mut self) -> (r: LayoutReq)
        ensures
            *final(self) == *old(self),
    {
        LayoutReq::new([Span::exactly(96), Span::exactly(32)])
    }

    fn fit_bounds(&mut self, bounds: Bounds)
        ensures
            *final(self) == *old(self),
    {
    }

    fn handle(&mut self, data: &mut D, event: &Event, bounds: Bounds, resp: &mut Response) -> (consumed:
        bool)
        ensures
            *final(self) == *old(self),
            *final(resp) == *old(resp),
    {
        false
    }

    fn draw(&mut self, data: &mut D, bounds: Bounds, canvas: &mut Canvas)
        ensures
            crate::state::same_binding(old(self).state(), final(self).state()),
    {
        let text = self.state.get_mut(data).clone();
        assert(old(self).state().peeks(*old(data), text, *data));
        canvas.bounded(bounds).draw_text([0, 0], text, 20, Color::black());
        assert(canvas@ =~= old(canvas)@ + seq![old(self).shape(bounds@, text@)]);
        assert(old(self).paints(bounds@, *old(data), *data, seq![old(self).shape(bounds@, text@)]));
    }
}

} // verus!
