use vstd::prelude::*;
use std::marker::PhantomData;
use crate::canvas::{Canvas, Shape};
use crate::draw::{Color, Fill};
use crate::element::Element;
use crate::event::{fire, handle_effect, handle_ready, Callback, Click, Handle, Handler, Mapped};
use crate::layout::{Bounds, LayoutReq, Rect, ReqModel};
use crate::state::State;
use crate::widget::{StateWidget, Widget};
use crate::{Event, Response};

verus! {

/// A clickable area around an optional child.
#[verifier::reject_recursive_types(D)]
pub struct Button<'a, D> {
    is_hover: bool,
    is_pressed: bool,
    inner: Option<Element<'a, D>>,
    on_click: Handle<'a, D, Click, ()>,
}

impl<'a, D> Button<'a, D> {
    /// Whether the pointer was over the button at the last cursor move it saw.
    pub closed spec fn hovered(&self) -> bool {
        self.is_hover
    }

    /// Whether the button is held down.
    pub closed spec fn pressed(&self) -> bool {
        self.is_pressed
    }

    /// The child, if there is one.
    pub closed spec fn inner(&self) -> Option<Element<'a, D>> {
        self.inner
    }

    /// The reaction to a click, if one is attached.
    pub closed spec fn on_click(&self) -> Handle<'a, D, Click, ()> {
        self.on_click
    }

    /// Whether the child consumes `event`.
    pub open spec fn inner_hits(&self, event: Event) -> bool {
        self.inner() matches Some(e) && e.hits(event)
    }

    /// Whether the child, or nothing if there is none, may turn `before`
    /// into `after` on `event`.
    pub open spec fn inner_reacts(&self, event: Event, before: D, after: D) -> bool {
        match self.inner() {
            Some(e) => e.reacts(event, before, after),
            None => after == before,
        }
    }

    /// Whether the child, once measured and arranged in `bounds`,
    /// consumes `event`.
    pub open spec fn inner_aims(&self, event: Event, bounds: Rect) -> bool {
        self.inner() matches Some(e) && e.aims(event, bounds)
    }

    /// Whether the child, once measured and arranged in `bounds`, or
    /// nothing if there is none, may turn `before` into `after` on `event`.
    pub open spec fn inner_acts(&self, event: Event, bounds: Rect, before: D, after: D) -> bool {
        match self.inner() {
            Some(e) => e.acts(event, bounds, before, after),
            None => after == before,
        }
    }

    /// Whether the button itself, once measured and arranged in `bounds`,
    /// takes `event`.
    pub open spec fn would_fire(&self, event: Event, bounds: Rect) -> bool {
        &&& !self.inner_aims(event, bounds)
        &&& event is Click
        &&& bounds.contains(event.x(), event.y())
    }

    /// Whether the child, once measured and arranged in `bounds`, asks for
    /// a redraw on `event`.
    pub open spec fn inner_asks(&self, event: Event, bounds: Rect) -> bool {
        self.inner() matches Some(e) && e.asks(event, bounds)
    }

    /// Whether `event`, with the button measured and arranged in `bounds`
    /// and unless the child consumes it, is a cursor move that takes the
    /// pointer onto the button or off it.
    pub open spec fn would_hover_change(&self, event: Event, bounds: Rect) -> bool {
        &&& !self.inner_aims(event, bounds)
        &&& event is CursorMove
        &&& self.hovered() != bounds.contains(event.x(), event.y())
    }

    /// Whether the child, drawn, may append `shapes` and turn `before`
    /// into `after`. Without a child nothing is appended or changed.
    pub open spec fn inner_paints(&self, before: D, after: D, shapes: Seq<Shape>) -> bool {
        match self.inner() {
            Some(e) => e.paints(before, after, shapes),
            None => after == before && shapes == Seq::<Shape>::empty(),
        }
    }

    /// The background: a rectangle over all of `bounds` in the given colour.
    pub open spec fn backdrop(bounds: Rect, color: Color) -> Shape {
        Shape::Rect { rect: bounds, fill: Fill::Color(color) }
    }

    /// Whether the button itself takes `event`: a click inside `bounds`
    /// that the child did not consume. This is when the attached reaction
    /// is called.
    pub open spec fn fires(&self, event: Event, bounds: Rect) -> bool {
        &&& !self.inner_hits(event)
        &&& event is Click
        &&& bounds.contains(event.x(), event.y())
    }

    /// Whether `event`, unless the child consumes it, is a cursor move that
    /// takes the pointer onto the button or off it.
    pub open spec fn hover_changes(&self, event: Event, bounds: Rect) -> bool {
        &&& !self.inner_hits(event)
        &&& event is CursorMove
        &&& self.hovered() != bounds.contains(event.x(), event.y())
    }

    /// The colour of the background: red while pressed, else grey while
    /// hovered, else white.
    pub open spec fn face(&self) -> Color {
        if self.pressed() {
            Color::spec_red()
        } else if self.hovered() {
            Color::spec_hover_grey()
        } else {
            Color::spec_white()
        }
    }

    /// Whether `other` is this button after a call that leaves all but the
    /// hover flag as it was measured and arranged.
    pub open spec fn kept_as(&self, other: &Self) -> bool {
        &&& other.pressed() == self.pressed()
        &&& other.on_click() == self.on_click()
        &&& self.inner() is Some == other.inner() is Some
        &&& self.inner() matches Some(e) ==> e.settled_as(&other.inner()->0)
    }

    /// The child, if there is one.
    pub fn child(&self) -> (c: Option<&Element<'a, D>>)
        ensures
            c is Some == self.inner() is Some,
            c matches Some(e) ==> *e == self.inner()->0,
    {
        self.inner.as_ref()
    }

    /// The same button around `inner`.
    pub fn containing(self, inner: impl Widget<'a, D> + 'a) -> (b: Self)
        ensures
            b.inner() matches Some(e) && e.holds(inner),
            b.hovered() == self.hovered(),
            b.pressed() == self.pressed(),
            b.on_click() == self.on_click(),
    {
        let mut b = self;
        b.inner = Some(Element::from_widget(inner));
        b
    }
}

impl<'a, D> Button<'a, D> {
    /// A button made as this one answers alike once measured and arranged alike.
    pub proof fn lemma_made_alike(&self, other: &Self)
        requires
            other.on_click() == self.on_click(),
            self.inner() is Some == other.inner() is Some,
            self.inner() matches Some(e) ==> e.made_as(&other.inner()->0),
        ensures
            forall|e: Event, b: Rect| #[trigger] other.aims(e, b) == self.aims(e, b),
            forall|e: Event, b: Rect, d0: D, d1: D| #[trigger]
                other.acts(e, b, d0, d1) == self.acts(e, b, d0, d1),
    {
        assert forall|e: Event, b: Rect| #[trigger] other.aims(e, b) == self.aims(e, b) by {
            assert(other.inner_aims(e, b) == self.inner_aims(e, b));
        }
        assert forall|e: Event, b: Rect, d0: D, d1: D| #[trigger]
            other.acts(e, b, d0, d1) == self.acts(e, b, d0, d1) by {
            assert(other.inner_aims(e, b) == self.inner_aims(e, b));
            assert(other.would_fire(e, b) == self.would_fire(e, b));
            assert forall|mid: D| #[trigger]
                other.inner_acts(e, b, d0, mid) == self.inner_acts(e, b, d0, mid) by {}
            if self.acts(e, b, d0, d1) {
                let mid = choose|mid: D| #[trigger]
                    self.inner_acts(e, b, d0, mid) && if self.would_fire(e, b) {
                        handle_effect(self.on_click(), mid, d1)
                    } else {
                        d1 == mid
                    };
                assert(other.inner_acts(e, b, d0, mid));
            }
            if other.acts(e, b, d0, d1) {
                let mid = choose|mid: D| #[trigger]
                    other.inner_acts(e, b, d0, mid) && if other.would_fire(e, b) {
                        handle_effect(other.on_click(), mid, d1)
                    } else {
                        d1 == mid
                    };
                assert(self.inner_acts(e, b, d0, mid));
            }
        }
    }

    /// A button whose child answers as it was arranged for, and was arranged
    /// in `bounds`, itself answers in `bounds` as it would once measured
    /// and arranged there.
    pub proof fn lemma_in_place(&self, bounds: Rect)
        requires
            self.inner() matches Some(e) ==> e.in_place() && e.region() == bounds,
        ensures
            forall|e: Event| #[trigger] self.hits(e, bounds) == self.aims(e, bounds),
            forall|e: Event, d0: D, d1: D| #[trigger]
                self.reacts(e, bounds, d0, d1) == self.acts(e, bounds, d0, d1),
    {
        assert forall|e: Event| #[trigger] self.hits(e, bounds) == self.aims(e, bounds) by {
            assert(self.inner_hits(e) == self.inner_aims(e, bounds));
        }
        assert forall|e: Event, d0: D, d1: D| #[trigger]
            self.reacts(e, bounds, d0, d1) == self.acts(e, bounds, d0, d1) by {
            assert(self.inner_hits(e) == self.inner_aims(e, bounds));
            assert(self.fires(e, bounds) == self.would_fire(e, bounds));
            assert forall|mid: D| #[trigger]
                self.inner_reacts(e, d0, mid) == self.inner_acts(e, bounds, d0, mid) by {}
            if self.reacts(e, bounds, d0, d1) {
                let mid = choose|mid: D| #[trigger]
                    self.inner_reacts(e, d0, mid) && if self.fires(e, bounds) {
                        handle_effect(self.on_click(), mid, d1)
                    } else {
                        d1 == mid
                    };
                assert(self.inner_acts(e, bounds, d0, mid));
            }
            if self.acts(e, bounds, d0, d1) {
                let mid = choose|mid: D| #[trigger]
                    self.inner_acts(e, bounds, d0, mid) && if self.would_fire(e, bounds) {
                        handle_effect(self.on_click(), mid, d1)
                    } else {
                        d1 == mid
                    };
                assert(self.inner_reacts(e, d0, mid));
            }
        }
    }

    /// A button made as this one, with the same hover flag, asks for redraws
    /// alike once measured and arranged alike.
    pub proof fn lemma_asks_alike(&self, other: &Self)
        requires
            other.hovered() == self.hovered(),
            self.inner() is Some == other.inner() is Some,
            self.inner() matches Some(e) ==> e.made_as(&other.inner()->0) && (forall|
                ev: Event,
                b: Rect,
            | #[trigger] other.inner()->0.asks(ev, b) == e.asks(ev, b)),
        ensures
            forall|e: Event, b: Rect| #[trigger] other.asks(e, b) == self.asks(e, b),
    {
        assert forall|e: Event, b: Rect| #[trigger] other.asks(e, b) == self.asks(e, b) by {
            assert(other.inner_aims(e, b) == self.inner_aims(e, b));
            assert(other.inner_asks(e, b) == self.inner_asks(e, b));
        }
    }

    /// A button that was kept, with the same hover flag and a child that asks
    /// for redraws as before, asks for redraws as before.
    pub proof fn lemma_calm(&self, other: &Self)
        requires
            self.kept_as(other),
            other.hovered() == self.hovered(),
            self.inner() matches Some(e) ==> e.calm_as(&other.inner()->0),
        ensures
            forall|e: Event, b: Rect| #[trigger] other.redraws(e, b) == self.redraws(e, b),
            forall|e: Event, b: Rect| #[trigger] other.asks(e, b) == self.asks(e, b),
    {
        self.lemma_asks_alike(other);
        assert forall|e: Event, b: Rect| #[trigger] other.redraws(e, b) == self.redraws(e, b) by {
            assert(other.inner_hits(e) == self.inner_hits(e));
            if self.inner() is Some {
                let c = self.inner()->0;
                let d = other.inner()->0;
                assert(c.settled_as(&d));
                assert(d.widget().redraws(e, c.region()) == c.widget().redraws(e, c.region()));
            }
        }
    }

    /// A button whose child asks for redraws as it was arranged for, and was
    /// arranged in `bounds`, itself asks in `bounds` as it would once
    /// measured and arranged there.
    pub proof fn lemma_alert(&self, bounds: Rect)
        requires
            self.inner() matches Some(e) ==> e.in_place() && e.alert() && e.region() == bounds,
        ensures
            forall|e: Event| #[trigger] self.redraws(e, bounds) == self.asks(e, bounds),
    {
        assert forall|e: Event| #[trigger] self.redraws(e, bounds) == self.asks(e, bounds) by {
            assert(self.inner_hits(e) == self.inner_aims(e, bounds));
            if self.inner() is Some {
                let c = self.inner()->0;
                assert(c.redraws(e) == c.asks(e, c.region()));
            }
        }
    }

    /// A button that was kept reacts to events as before.
    pub proof fn lemma_kept(&self, other: &Self)
        requires
            self.kept_as(other),
        ensures
            forall|e: Event, b: Rect| #[trigger] other.hits(e, b) == self.hits(e, b),
            forall|e: Event, b: Rect, d0: D, d1: D| #[trigger]
                other.reacts(e, b, d0, d1) == self.reacts(e, b, d0, d1),
            forall|e: Event, b: Rect| #[trigger] other.aims(e, b) == self.aims(e, b),
            forall|e: Event, b: Rect, d0: D, d1: D| #[trigger]
                other.acts(e, b, d0, d1) == self.acts(e, b, d0, d1),
    {
        self.lemma_made_alike(other);
        assert forall|e: Event, b: Rect, d0: D, d1: D| #[trigger]
            other.reacts(e, b, d0, d1) == self.reacts(e, b, d0, d1) by {
            assert(other.fires(e, b) == self.fires(e, b));
            assert forall|mid: D| #[trigger]
                other.inner_reacts(e, d0, mid) == self.inner_reacts(e, d0, mid) by {}
            if self.reacts(e, b, d0, d1) {
                let mid = choose|mid: D| #[trigger]
                    self.inner_reacts(e, d0, mid) && if self.fires(e, b) {
                        handle_effect(self.on_click(), mid, d1)
                    } else {
                        d1 == mid
                    };
                assert(other.inner_reacts(e, d0, mid));
            }
            if other.reacts(e, b, d0, d1) {
                let mid = choose|mid: D| #[trigger]
                    other.inner_reacts(e, d0, mid) && if other.fires(e, b) {
                        handle_effect(other.on_click(), mid, d1)
                    } else {
                        d1 == mid
                    };
                assert(self.inner_reacts(e, d0, mid));
            }
        }
    }
}

impl<'a, D> StateWidget<'a, D, ()> for Button<'a, D> {
    open spec fn made_from(&self, state: State<'a, D, ()>) -> bool {
        !self.hovered() && !self.pressed() && self.inner() is None && self.on_click() is None
    }

    fn from_state(state: State<'a, D, ()>) -> (w: Self)
        ensures
            !w.hovered(),
            !w.pressed(),
            w.inner() is None,
            w.on_click() is None,
    {
        Self { is_hover: false, is_pressed: false, inner: None, on_click: None }
    }
}

impl<'a, D> Widget<'a, D> for Button<'a, D> {
    open spec fn ready(&self) -> bool {
        &&& self.inner() matches Some(e) ==> e.ready()
        &&& handle_ready(self.on_click())
    }

    open spec fn req(&self) -> ReqModel {
        match self.inner() {
            Some(e) => e.req(),
            None => ReqModel::any(),
        }
    }

    open spec fn measured(&self) -> bool {
        self.inner() matches Some(e) ==> e.widget().measured()
    }

    open spec fn fitted(&self, bounds: Rect) -> bool {
        self.inner() matches Some(e) ==> e.fitted(bounds)
    }

    open spec fn hits(&self, event: Event, bounds: Rect) -> bool {
        self.inner_hits(event) || self.fires(event, bounds)
    }

    open spec fn redraws(&self, event: Event, bounds: Rect) -> bool {
        ||| self.inner() matches Some(e) && e.redraws(event)
        ||| self.fires(event, bounds)
        ||| self.hover_changes(event, bounds)
    }

    open spec fn reacts(&self, event: Event, bounds: Rect, before: D, after: D) -> bool {
        exists|mid: D| #[trigger]
            self.inner_reacts(event, before, mid) && if self.fires(event, bounds) {
                handle_effect(self.on_click(), mid, after)
            } else {
                after == mid
            }
    }

    open spec fn aims(&self, event: Event, bounds: Rect) -> bool {
        self.inner_aims(event, bounds) || self.would_fire(event, bounds)
    }

    open spec fn acts(&self, event: Event, bounds: Rect, before: D, after: D) -> bool {
        exists|mid: D| #[trigger]
            self.inner_acts(event, bounds, before, mid) && if self.would_fire(event, bounds) {
                handle_effect(self.on_click(), mid, after)
            } else {
                after == mid
            }
    }

    open spec fn asks(&self, event: Event, bounds: Rect) -> bool {
        ||| self.inner_asks(event, bounds)
        ||| self.would_fire(event, bounds)
        ||| self.would_hover_change(event, bounds)
    }

    open spec fn paints(&self, bounds: Rect, before: D, after: D, shapes: Seq<Shape>) -> bool {
        exists|below: Seq<Shape>| #[trigger]
            self.inner_paints(before, after, below) && shapes == seq![
                Self::backdrop(bounds, self.face()),
            ] + below
    }

    open spec fn regions(&self) -> Seq<Rect> {
        match self.inner() {
            Some(e) => seq![e.region()],
            None => Seq::empty(),
        }
    }

    fn child_count(&self) -> (n: usize) {
        match &self.inner {
            Some(_) => 1,
            None => 0,
        }
    }

    fn child_bounds(&self, i: usize) -> (b: Option<Bounds>) {
        match &self.inner {
            Some(e) => if i == 0 {
                Some(e.bounds())
            } else {
                None
            },
            None => None,
        }
    }

    fn get_layout_req(&mut self) -> (r: LayoutReq)
        ensures
            final(self).hovered() == old(self).hovered(),
            final(self).pressed() == old(self).pressed(),
            final(self).on_click() == old(self).on_click(),
    {
        let r = match &mut self.inner {
            Some(e) => e.get_layout_req(),
            None => LayoutReq::any(),
        };
        proof {
            old(self).lemma_made_alike(self);
            old(self).lemma_asks_alike(self);
        }
        r
    }

    fn fit_bounds(&mut self, bounds: Bounds)
        ensures
            final(self).hovered() == old(self).hovered(),
            final(self).pressed() == old(self).pressed(),
            final(self).on_click() == old(self).on_click(),
    {
        match &mut self.inner {
            Some(e) => e.fit_bounds(bounds),
            None => {},
        }
        proof {
            old(self).lemma_made_alike(self);
            old(self).lemma_asks_alike(self);
            if old(self).measured() {
                self.lemma_in_place(bounds@);
                self.lemma_alert(bounds@);
            }
        }
    }

    fn handle(&mut self, data: &mut D, event: &Event, bounds: Bounds, resp: &mut Response) -> (consumed:
        bool)
        ensures
            old(self).kept_as(final(self)),
            final(self).hovered() == if !old(self).inner_hits(*event) && *event is CursorMove {
                bounds@.contains(event.x(), event.y())
            } else {
                old(self).hovered()
            },
    {
        let inner_consumed = match &mut self.inner {
            Some(e) => e.handle(data, event, resp),
            None => false,
        };
        let ghost mid = *data;
        assert(old(self).inner_reacts(*event, *old(data), mid));
        let consumed = if inner_consumed {
            true
        } else {
            match event {
                Event::Click(pos, _) => {
                    if bounds.contains(*pos) {
                        fire(&self.on_click, data);
                        resp.redraw();
                        true
                    } else {
                        false
                    }
                },
                Event::CursorMove(pos) => {
                    let old_hover = self.is_hover;
                    self.is_hover = bounds.contains(*pos);
                    if old_hover != self.is_hover {
                        resp.redraw();
                    }
                    false
                },
            }
        };
        proof {
            old(self).lemma_kept(self);
            if *event is Click {
                old(self).lemma_calm(self);
            }
        }
        consumed
    }

    fn draw(&mut self, data: &mut D, bounds: Bounds, canvas: &mut Canvas)
        ensures
            old(self).kept_as(final(self)),
            final(self).hovered() == old(self).hovered(),
    {
        let color = if self.is_pressed {
            Color::red()
        } else if self.is_hover {
            Color::hover_grey()
        } else {
            Color::white()
        };
        canvas.bounded(bounds).fill(Fill::Color(color));
        let ghost first = seq![Self::backdrop(bounds@, old(self).face())];
        let ghost filled = canvas@;
        assert(filled =~= old(canvas)@ + first);
        match &mut self.inner {
            Some(e) => e.draw(data, canvas),
            None => {},
        }
        proof {
            let below = match old(self).inner() {
                Some(e) => choose|below: Seq<Shape>|
                    canvas@ == filled + below && #[trigger] e.paints(*old(data), *data, below),
                None => Seq::<Shape>::empty(),
            };
            assert(old(self).inner_paints(*old(data), *data, below));
            assert(canvas@ =~= old(canvas)@ + (first + below));
            assert(old(self).paints(bounds@, *old(data), *data, first + below));
            old(self).lemma_kept(self);
            old(self).lemma_calm(self);
        }
    }
}

impl<'a, D: 'a> Handler<'a, D, Click> for Button<'a, D> {
    open spec fn attached(&self) -> bool {
        self.on_click() is Some
    }

    open spec fn reaction(&self, before: D, after: D) -> bool {
        handle_effect(self.on_click(), before, after)
    }

    open spec fn but_reaction(&self, other: &Self) -> bool {
        &&& other.hovered() == self.hovered()
        &&& other.pressed() == self.pressed()
        &&& other.inner() == self.inner()
    }

    fn attach<F: 'a + Callback<D, Click, Self>>(&mut self, f: F)
        ensures
            final(self).on_click() matches Some(c) && c.ready() == f.ready() && (forall|
                d0: D,
                d1: D,
            | c.effect(d0, d1) == f.effect(d0, d1)),
            final(self).hovered() == old(self).hovered(),
            final(self).pressed() == old(self).pressed(),
            final(self).inner() == old(self).inner(),
    {
        self.on_click = Some(Box::new(Mapped { inner: f, widget: PhantomData }));
    }
}

/// The child comes first. An event that the child of a button consumes is
/// consumed, and the button itself does not take it: its own reaction is not
/// called, so the application state changes only as the child changes it.
pub proof fn lemma_child_first<'a, D>(outer: Button<'a, D>, event: Event, bounds: Rect)
    requires
        outer.inner_hits(event),
    ensures
        outer.hits(event, bounds),
        !outer.fires(event, bounds),
        forall|d0: D, d1: D| #[trigger]
            outer.reacts(event, bounds, d0, d1) == outer.inner()->0.reacts(event, d0, d1),
{
    assert forall|d0: D, d1: D| #[trigger]
        outer.reacts(event, bounds, d0, d1) == outer.inner()->0.reacts(event, d0, d1) by {
        if outer.inner()->0.reacts(event, d0, d1) {
            assert(outer.inner_reacts(event, d0, d1));
        }
    }
}

/// Of two nested clickable areas, the inner one gets the click. When the
/// child of `outer` answers to events as the button `nested` does, a click
/// inside the rectangle of the child is consumed below `outer`, by `nested`
/// or by something inside it, and `outer` itself does not take it.
pub proof fn lemma_nested_click<'a, D>(
    outer: Button<'a, D>,
    nested: Button<'a, D>,
    event: Event,
    bounds: Rect,
)
    requires
        outer.inner() is Some,
        forall|e: Event, b: Rect| #[trigger]
            outer.inner()->0.widget().hits(e, b) == nested.hits(e, b),
        event is Click,
        outer.inner()->0.region().contains(event.x(), event.y()),
    ensures
        outer.inner_hits(event),
        nested.inner_hits(event) || nested.fires(event, outer.inner()->0.region()),
        outer.hits(event, bounds),
        !outer.fires(event, bounds),
{
    let child = outer.inner()->0;
    assert(child.widget().hits(event, child.region()) == nested.hits(event, child.region()));
}

} // verus!
