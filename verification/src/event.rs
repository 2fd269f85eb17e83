use vstd::prelude::*;
use std::marker::PhantomData;
use crate::layout::Rect;
use crate::widget::Widget;
use crate::Event;

verus! {

/// The event kind of a pointer click.
#[derive(Clone, Copy, Debug)]
pub struct Click;

/// What a callback gets when an event of kind `E` fires on a widget of
/// type `W`: access to the application state.
pub struct EventCtx<'a, D, E, W> {
    pub widget: PhantomData<(E, W)>,
    pub data: &'a mut D,
}

impl<'a, D, E, W> EventCtx<'a, D, E, W> {
    /// A context for the given application state.
    pub fn new(data: &'a mut D) -> (ctx: Self)
        ensures
            *ctx.data == *old(data),
            *final(ctx.data) == *final(data),
    {
        EventCtx { widget: PhantomData, data }
    }

    /// The same context, seen as that of a widget of type `U`.
    pub fn map<U>(self) -> (ctx: EventCtx<'a, D, E, U>)
        ensures
            *ctx.data == *old(self.data),
            *final(ctx.data) == *final(self.data),
    {
        EventCtx { widget: PhantomData, data: self.data }
    }
}

/// A reaction to an event of kind `E` on a widget of type `W`.
pub trait Callback<D, E, W> {
    /// Whether the reaction may be called.
    spec fn ready(&self) -> bool;

    /// Whether the reaction may turn the application state `before` into `after`.
    spec fn effect(&self, before: D, after: D) -> bool;

    fn call(&self, ctx: EventCtx<D, E, W>)
        requires
            self.ready(),
        ensures
            self.effect(*old(ctx.data), *final(ctx.data)),
    ;
}

/// Every function of an event context is a reaction. Nothing is known of
/// what it does to the application state.
impl<D, E, W, F: for <'x> Fn(EventCtx<'x, D, E, W>)> Callback<D, E, W> for F {
    open spec fn ready(&self) -> bool {
        forall|ctx: EventCtx<D, E, W>| call_requires(*self, (ctx,))
    }

    open spec fn effect(&self, before: D, after: D) -> bool {
        true
    }

    fn call(&self, ctx: EventCtx<D, E, W>) {
        self(ctx)
    }
}

/// A reaction that was made for a widget of type `W`, attached to one of type `U`.
pub struct Mapped<F, W> {
    pub inner: F,
    pub widget: PhantomData<W>,
}

impl<D, E, W, U, F: Callback<D, E, W>> Callback<D, E, U> for Mapped<F, W> {
    open spec fn ready(&self) -> bool {
        self.inner.ready()
    }

    open spec fn effect(&self, before: D, after: D) -> bool {
        self.inner.effect(before, after)
    }

    fn call(&self, ctx: EventCtx<D, E, U>) {
        self.inner.call(ctx.map())
    }
}

/// An optional reaction, owned by the widget it is attached to.
pub type Handle<'a, D, E, W> = Option<Box<dyn Callback<D, E, W> + 'a>>;

/// Whether the reaction, if there is one, may be called.
pub open spec fn handle_ready<D, E, W>(h: Handle<D, E, W>) -> bool {
    h matches Some(f) ==> f.ready()
}

/// Whether firing the handle may turn `before` into `after`: what the
/// reaction does if there is one, and nothing otherwise.
pub open spec fn handle_effect<D, E, W>(h: Handle<D, E, W>, before: D, after: D) -> bool {
    match h {
        Some(f) => f.effect(before, after),
        None => after == before,
    }
}

/// Calls the reaction, if there is one.
pub fn fire<D, E, W>(h: &Handle<D, E, W>, data: &mut D)
    requires
        handle_ready(*h),
    ensures
        handle_effect(*h, *old(data), *final(data)),
{
    match h {
        Some(f) => f.call(EventCtx::new(data)),
        None => {},
    }
}

/// A widget that reacts to events of kind `E`.
pub trait Handler<'a, D, E>: Widget<'a, D> + Sized {
    /// Whether a reaction is attached.
    spec fn attached(&self) -> bool;

    /// Whether the reaction that is attached may turn `before` into
    /// `after`. Without one nothing changes.
    spec fn reaction(&self, before: D, after: D) -> bool;

    /// Whether `other` is this widget but for the reaction that is
    /// attached: whatever else the widget holds is the same.
    spec fn but_reaction(&self, other: &Self) -> bool;

    /// Attaches `f`, in place of what was attached before. Whatever else
    /// the widget holds stays, and so do what it needs, what it consumes
    /// and when it asks for a redraw.
    fn attach<F: 'a + Callback<D, E, Self>>(&mut self, f: F)
        ensures
            final(self).attached(),
            old(self).but_reaction(final(self)),
            forall|e: Event, b: Rect| final(self).redraws(e, b) == old(self).redraws(e, b),
            forall|e: Event, b: Rect| final(self).asks(e, b) == old(self).asks(e, b),
            forall|d0: D, d1: D| #[trigger] final(self).reaction(d0, d1) == f.effect(d0, d1),
            old(self).ready() && f.ready() ==> final(self).ready(),
            final(self).req() == old(self).req(),
            old(self).measured() ==> final(self).measured(),
            forall|b: Rect| old(self).fitted(b) ==> final(self).fitted(b),
            forall|e: Event, b: Rect| final(self).hits(e, b) == old(self).hits(e, b),
            forall|e: Event, b: Rect| final(self).aims(e, b) == old(self).aims(e, b),
    ;
}

} // verus!
