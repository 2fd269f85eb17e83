use vstd::prelude::*;
use crate::canvas::{Canvas, Shape};
use crate::element::Element;
use crate::event::{Callback, EventCtx, Handler};
use crate::layout::{Bounds, LayoutReq, Rect, ReqModel};
use crate::state::{Generate, Project, State};
use crate::{Event, Response};

pub mod button;
pub mod label;
pub mod list;
pub mod padded;
pub mod toggle;

pub use self::button::Button;
pub use self::label::Label;
pub use self::list::List;
pub use self::padded::Padded;
pub use self::toggle::Toggle;

verus! {

/// What every widget can do: say how much room it needs, take the
/// rectangle it is given, react to input and draw itself.
pub trait Widget<'a, D> {
    /// Whether every function held by the widget and by the widgets below
    /// it may be called.
    spec fn ready(&self) -> bool;

    /// How much room the widget needs.
    spec fn req(&self) -> ReqModel;

    /// Whether the widget is measured as far as arranging it goes: every
    /// widget at or below it that divides its room by what its children
    /// need has children that remember what they need.
    spec fn measured(&self) -> bool;

    /// Whether the elements below the widget have the rectangles they get
    /// when the widget itself is given `bounds`.
    spec fn fitted(&self, bounds: Rect) -> bool;

    /// Whether the widget, given `bounds`, consumes `event`.
    spec fn hits(&self, event: Event, bounds: Rect) -> bool;

    /// Whether the widget, given `bounds`, asks for a redraw on `event`.
    spec fn redraws(&self, event: Event, bounds: Rect) -> bool;

    /// Whether the widget, given `bounds`, may turn the application state
    /// `before` into `after` on `event`.
    spec fn reacts(&self, event: Event, bounds: Rect, before: D, after: D) -> bool;

    /// Whether the widget, once measured and arranged in `bounds`, consumes
    /// `event`. This looks at what the widget is made of, not at what the
    /// elements below it remember.
    spec fn aims(&self, event: Event, bounds: Rect) -> bool;

    /// Whether the widget, once measured and arranged in `bounds`, may turn
    /// the application state `before` into `after` on `event`.
    spec fn acts(&self, event: Event, bounds: Rect, before: D, after: D) -> bool;

    /// Whether the widget, once measured and arranged in `bounds`, asks for
    /// a redraw on `event`.
    spec fn asks(&self, event: Event, bounds: Rect) -> bool;

    /// Whether the widget, drawn in `bounds`, may append `shapes` and turn
    /// the application state `before` into `after`.
    spec fn paints(&self, bounds: Rect, before: D, after: D, shapes: Seq<Shape>) -> bool;

    /// The rectangles of the elements directly below the widget, first to
    /// last.
    spec fn regions(&self) -> Seq<Rect>;

    /// How many elements stand directly below the widget.
    fn child_count(&self) -> (n: usize)
        ensures
            n == self.regions().len(),
    ;

    /// The rectangle of element `i` directly below the widget, if there is
    /// one.
    fn child_bounds(&self, i: usize) -> (b: Option<Bounds>)
        ensures
            b is Some == (i < self.regions().len()),
            b matches Some(r) ==> r@ == self.regions()[i as int],
    ;

    /// Measures the widget and every element below it.
    fn get_layout_req(&mut self) -> (r: LayoutReq)
        requires
            old(self).ready(),
        ensures
            r@ == old(self).req(),
            final(self).ready(),
            final(self).req() == old(self).req(),
            final(self).measured(),
            forall|e: Event, b: Rect| final(self).asks(e, b) == old(self).asks(e, b),
            forall|e: Event, b: Rect| final(self).aims(e, b) == old(self).aims(e, b),
            forall|e: Event, b: Rect, d0: D, d1: D| #[trigger]
                final(self).acts(e, b, d0, d1) == old(self).acts(e, b, d0, d1),
    ;

    /// Gives the widget its rectangle, and the elements below it theirs.
    fn fit_bounds(&mut self, bounds: Bounds)
        requires
            old(self).ready(),
        ensures
            final(self).ready(),
            final(self).req() == old(self).req(),
            old(self).measured() ==> final(self).measured(),
            final(self).fitted(bounds@),
            forall|e: Event, b: Rect| final(self).asks(e, b) == old(self).asks(e, b),
            old(self).measured() ==> forall|e: Event| #[trigger]
                final(self).redraws(e, bounds@) == final(self).asks(e, bounds@),
            forall|e: Event, b: Rect| final(self).aims(e, b) == old(self).aims(e, b),
            forall|e: Event, b: Rect, d0: D, d1: D| #[trigger]
                final(self).acts(e, b, d0, d1) == old(self).acts(e, b, d0, d1),
            old(self).measured() ==> forall|e: Event| #[trigger]
                final(self).hits(e, bounds@) == final(self).aims(e, bounds@),
            old(self).measured() ==> forall|e: Event, d0: D, d1: D| #[trigger]
                final(self).reacts(e, bounds@, d0, d1) == final(self).acts(e, bounds@, d0, d1),
    ;

    /// Dispatches `event`. Returns whether it was consumed.
    fn handle(&mut self, data: &mut D, event: &Event, bounds: Bounds, resp: &mut Response) -> (consumed:
        bool)
        requires
            old(self).ready(),
        ensures
            consumed == old(self).hits(*event, bounds@),
            final(resp).wants_redraw() == (old(resp).wants_redraw() || old(self).redraws(
                *event,
                bounds@,
            )),
            old(self).reacts(*event, bounds@, *old(data), *final(data)),
            *event is Click ==> forall|e: Event, b: Rect|
                final(self).redraws(e, b) == old(self).redraws(e, b),
            *event is Click ==> forall|e: Event, b: Rect|
                final(self).asks(e, b) == old(self).asks(e, b),
            final(self).ready(),
            final(self).req() == old(self).req(),
            old(self).measured() ==> final(self).measured(),
            forall|b: Rect| old(self).fitted(b) ==> final(self).fitted(b),
            forall|e: Event, b: Rect| final(self).hits(e, b) == old(self).hits(e, b),
            forall|e: Event, b: Rect, d0: D, d1: D| #[trigger]
                final(self).reacts(e, b, d0, d1) == old(self).reacts(e, b, d0, d1),
            forall|e: Event, b: Rect| final(self).aims(e, b) == old(self).aims(e, b),
            forall|e: Event, b: Rect, d0: D, d1: D| #[trigger]
                final(self).acts(e, b, d0, d1) == old(self).acts(e, b, d0, d1),
    ;

    /// Appends the primitives that show the widget in `bounds`.
    fn draw(&mut self, data: &mut D, bounds: Bounds, canvas: &mut Canvas)
        requires
            old(self).ready(),
        ensures
            exists|shapes: Seq<Shape>|
                final(canvas)@ == old(canvas)@ + shapes && #[trigger] old(self).paints(
                    bounds@,
                    *old(data),
                    *final(data),
                    shapes,
                ),
            forall|e: Event, b: Rect| final(self).redraws(e, b) == old(self).redraws(e, b),
            forall|e: Event, b: Rect| final(self).asks(e, b) == old(self).asks(e, b),
            final(self).ready(),
            final(self).req() == old(self).req(),
            old(self).measured() ==> final(self).measured(),
            forall|b: Rect| old(self).fitted(b) ==> final(self).fitted(b),
            forall|e: Event, b: Rect| final(self).hits(e, b) == old(self).hits(e, b),
            forall|e: Event, b: Rect, d0: D, d1: D| #[trigger]
                final(self).reacts(e, b, d0, d1) == old(self).reacts(e, b, d0, d1),
            forall|e: Event, b: Rect| final(self).aims(e, b) == old(self).aims(e, b),
            forall|e: Event, b: Rect, d0: D, d1: D| #[trigger]
                final(self).acts(e, b, d0, d1) == old(self).acts(e, b, d0, d1),
    ;
}

/// A widget that is made from a state binding.
pub trait StateWidget<'a, D, S>: Widget<'a, D> + Sized {
    /// Whether the widget is one freshly made from `state`.
    spec fn made_from(&self, state: State<'a, D, S>) -> bool;

    fn from_state(state: State<'a, D, S>) -> (w: Self)
        ensures
            w.made_from(state),
            state.ready() ==> w.ready(),
    ;
}

/// Ways to make widgets and to put them together, for every widget.
pub trait Build<'a, D>: Widget<'a, D> + Sized {
    /// The widget that owns `state`.
    fn with_state<S>(state: S) -> (w: Self) where Self: StateWidget<'a, D, S>
        ensures
            w.made_from(State::Inner(state)),
            w.ready(),
    {
        Self::from_state(State::Inner(state))
    }

    /// The widget whose state is computed by `f` before each use.
    fn gen_state<S: Default, F: 'a + Fn(&mut D) -> S>(f: F) -> (w: Self) where
        Self: StateWidget<'a, D, S>,

        ensures
            (forall|data: &mut D| call_requires(f, (data,))) ==> w.ready(),
            exists|cache: S| #[trigger] w.made_from(State::Generate(cache, Box::new(f))),
    {
        let cache = S::default();
        let ghost first = cache;
        let state: State<'a, D, S> = State::Generate(cache, Box::new(f));
        assert(state->Generate_1.ready() == Generate::<D, S>::ready(&f));
        let w = Self::from_state(state);
        assert(w.made_from(State::Generate(first, Box::new(f))));
        w
    }

    /// The widget that owns the default value of its state.
    fn default_state<S: Default>() -> (w: Self) where Self: StateWidget<'a, D, S>
        ensures
            w.ready(),
            exists|value: S| #[trigger] w.made_from(State::Inner(value)),
    {
        let value = S::default();
        let ghost first = value;
        let w = Self::from_state(State::Inner(value));
        assert(w.made_from(State::Inner(first)));
        w
    }

    /// The widget whose state is the part of the application state that `f`
    /// hands out.
    fn bind_state<S, F: 'a + for <'b> Fn(&'b mut D) -> &'b mut S>(f: F) -> (w: Self) where
        Self: StateWidget<'a, D, S>,

        ensures
            (forall|data: &mut D| call_requires(f, (data,))) ==> w.ready(),
            w.made_from(State::Bind(Box::new(f))),
    {
        let state: State<'a, D, S> = State::Bind(Box::new(f));
        assert(state->Bind_0.ready() == Project::<D, S>::ready(&f));
        let w = Self::from_state(state);
        assert(w.made_from(State::Bind(Box::new(f))));
        w
    }

    /// The same widget, with `f` as its reaction to events of kind `E`.
    fn on<E, F: 'a + for <'x> Fn(EventCtx<'x, D, E, Self>)>(self, event: E, f: F) -> (w: Self) where
        Self: Handler<'a, D, E>,

        ensures
            w.attached(),
            self.but_reaction(&w),
            forall|d0: D, d1: D| #[trigger]
                w.reaction(d0, d1) == Callback::<D, E, Self>::effect(&f, d0, d1),
            forall|e: Event, b: Rect| w.redraws(e, b) == self.redraws(e, b),
            forall|e: Event, b: Rect| w.asks(e, b) == self.asks(e, b),
            self.ready() && (forall|ctx: EventCtx<D, E, Self>| call_requires(f, (ctx,)))
                ==> w.ready(),
            w.req() == self.req(),
            self.measured() ==> w.measured(),
            forall|b: Rect| self.fitted(b) ==> w.fitted(b),
            forall|e: Event, b: Rect| w.hits(e, b) == self.hits(e, b),
            forall|e: Event, b: Rect| w.aims(e, b) == self.aims(e, b),
    {
        let mut w = self;
        w.attach(f);
        w
    }

    /// The widget with a margin of `padding` on every side.
    fn padded(self, padding: i64) -> (p: Padded<'a, D, Self>)
        ensures
            p.inner() == self,
            p.padding() == padding,
    {
        Padded::new(self, padding)
    }

    /// Boxes the widget into an element.
    fn finish(self) -> (e: Element<'a, D>) where Self: 'a
        ensures
            e.holds(self),
    {
        Element::from_widget(self)
    }
}

impl<'a, D, W: Widget<'a, D>> Build<'a, D> for W {
}

} // verus!
