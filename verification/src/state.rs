use vstd::prelude::*;

verus! {

/// A projection from the application state to a part of it.
pub trait Project<D, S> {
    /// Whether the projection may be called.
    spec fn ready(&self) -> bool;

    /// Whether `part` is what the projection may hand out of `whole`.
    spec fn focus(&self, whole: D, part: S) -> bool;

    /// Whether `after` is what `before` may become once the part handed out
    /// has been left as `part`.
    spec fn merge(&self, before: D, part: S, after: D) -> bool;

    fn project<'b>(&self, data: &'b mut D) -> (part: &'b mut S)
        requires
            self.ready(),
        ensures
            self.focus(*old(data), *part),
            self.merge(*old(data), *final(part), *final(data)),
    ;
}

/// Every function from `&mut D` to `&mut S` is a projection: it hands out
/// what the function returns. What the function does to the rest of the
/// state shows in `project` itself; `merge` adds nothing to it.
impl<D, S, F: for <'b> Fn(&'b mut D) -> &'b mut S> Project<D, S> for F {
    open spec fn ready(&self) -> bool {
        forall|data: &mut D| call_requires(*self, (data,))
    }

    /// Whether the function, called on a reference to `whole`, may return
    /// a reference to `part`.
    open spec fn focus(&self, whole: D, part: S) -> bool {
        exists|x: &mut D, r: &mut S|
            *x == whole && *r == part && #[trigger] call_ensures(*self, (x,), r)
    }

    open spec fn merge(&self, before: D, part: S, after: D) -> bool {
        true
    }

    /// Calls the function on `data` and hands out what it returns: the
    /// call takes the state from what `data` held to what it holds in the
    /// end, and its result starts as `part` does and ends as `part` does.
    fn project<'b>(&self, data: &'b mut D) -> (part: &'b mut S)
        ensures
            exists|x: &mut D, r: &mut S|
                {
                    &&& *x == *old(data)
                    &&& *final(x) == *final(data)
                    &&& *r == *part
                    &&& *final(r) == *final(part)
                    &&& #[trigger] call_ensures(*self, (x,), r)
                },
    {
        self(data)
    }
}

/// A computation of a value from the application state.
pub trait Generate<D, S> {
    /// Whether the computation may be called.
    spec fn ready(&self) -> bool;

    /// Whether the computation, started on `before`, may leave the state as
    /// `after` and return `out`.
    spec fn produces(&self, before: D, after: D, out: S) -> bool;

    fn generate(&self, data: &mut D) -> (out: S)
        requires
            self.ready(),
        ensures
            self.produces(*old(data), *final(data), out),
    ;
}

/// Every function from `&mut D` to `S` is a computation: it returns what
/// the function returns. What the function does to the state shows in
/// `generate` itself; `produces` speaks of the result alone.
impl<D, S, F: Fn(&mut D) -> S> Generate<D, S> for F {
    open spec fn ready(&self) -> bool {
        forall|data: &mut D| call_requires(*self, (data,))
    }

    /// Whether the function, called on a reference to `before`, may return
    /// `out`.
    open spec fn produces(&self, before: D, after: D, out: S) -> bool {
        exists|x: &mut D| *x == before && #[trigger] call_ensures(*self, (x,), out)
    }

    /// Calls the function on `data` and returns what it returns: the call
    /// takes the state from what `data` held to what it holds in the end.
    fn generate(&self, data: &mut D) -> (out: S)
        ensures
            exists|x: &mut D|
                {
                    &&& *x == *old(data)
                    &&& *final(x) == *final(data)
                    &&& #[trigger] call_ensures(*self, (x,), out)
                },
    {
        self(data)
    }
}

/// How a widget reaches the piece of state it shows or edits.
#[verifier::reject_recursive_types(D)]
#[verifier::reject_recursive_types(S)]
pub enum State<'a, D, S> {
    /// The value is a part of the application state, reached on demand.
    Bind(Box<dyn Project<D, S> + 'a>),
    /// The value is computed from the application state before each use
    /// and kept in a cache.
    Generate(S, Box<dyn Generate<D, S> + 'a>),
    /// The value is owned outright.
    Inner(S),
}

impl<'a, D, S> State<'a, D, S> {
    /// Whether the functions held may be called.
    pub open spec fn ready(&self) -> bool {
        match self {
            State::Bind(_) => self->Bind_0.ready(),
            State::Generate(_, _) => self->Generate_1.ready(),
            State::Inner(_) => true,
        }
    }

    /// Whether `value` is what an access may read when the application
    /// state is `data`.
    pub open spec fn reads(&self, data: D, value: S) -> bool {
        match self {
            State::Bind(_) => self->Bind_0.focus(data, value),
            State::Generate(_, _) => exists|after: D|
                #[trigger] self->Generate_1.produces(data, after, value),
            State::Inner(s) => value == *s,
        }
    }

    /// Whether an access that reads `value` and leaves it as it is may turn
    /// the application state `before` into `after`.
    pub open spec fn peeks(&self, before: D, value: S, after: D) -> bool {
        match self {
            State::Bind(_) => self->Bind_0.focus(before, value) && self->Bind_0.merge(
                before,
                value,
                after,
            ),
            State::Generate(_, _) => self->Generate_1.produces(before, after, value),
            State::Inner(s) => value == *s && after == before,
        }
    }

    /// The value behind the binding, for reading and writing.
    ///
    /// A bound value is borrowed from `data`. A generated value is computed
    /// anew into the cache, and the cache is lent. An owned value is lent
    /// as it is, and `data` stays untouched.
    pub fn get_mut<'b, 'c: 'b>(&'c mut self, data: &'b mut D) -> (value: &'b mut S)
        requires
            old(self).ready(),
        ensures
            old(self).reads(*old(data), *value),
            final(self).ready(),
            same_binding(*old(self), *final(self)),
            (*old(self)) is Bind ==> *final(self) == *old(self) && (*old(self))->Bind_0.merge(
                *old(data),
                *final(value),
                *final(data),
            ),
            (*old(self)) is Generate ==> (*final(self)) is Generate && (*final(self))->Generate_0
                == *final(value) && (*final(self))->Generate_1 == (*old(self))->Generate_1 && (
            *old(self))->Generate_1.produces(*old(data), *final(data), *value),
            (*old(self)) is Inner ==> *final(self) == State::<D, S>::Inner(*final(value))
                && *final(data) == *old(data),
    {
        match self {
            State::Bind(f) => f.project(data),
            State::Generate(s, f) => {
                let ghost before = *data;
                let fresh = f.generate(data);
                assert((*old(self))->Generate_1.produces(before, *data, fresh));
                *s = fresh;
                s
            },
            State::Inner(s) => s,
        }
    }
}

/// Whether `b` binds as `a` does: it is of the same kind and holds the
/// same function, though what it owns or has cached may differ.
pub open spec fn same_binding<'a, D, S>(a: State<'a, D, S>, b: State<'a, D, S>) -> bool {
    match a {
        State::Bind(_) => b == a,
        State::Generate(_, _) => b is Generate && b->Generate_1 == a->Generate_1,
        State::Inner(_) => b is Inner,
    }
}

/// The way a value is bound does not show in what an access reads.
///
/// Take an application state `data` and a value `v`. Let `inner` own `v`,
/// let `bind` project to a part of `data` that can only be `v`, and let
/// `generate` compute from `data` a value that can only be `v`. Then every
/// access to any of the three reads `v`.
pub proof fn lemma_binding_transparent<'a, D, S>(
    inner: State<'a, D, S>,
    bind: State<'a, D, S>,
    generate: State<'a, D, S>,
    data: D,
    v: S,
)
    requires
        inner is Inner && inner->Inner_0 == v,
        bind is Bind,
        forall|s: S| #[trigger] bind->Bind_0.focus(data, s) ==> s == v,
        generate is Generate,
        forall|after: D, s: S| #[trigger] generate->Generate_1.produces(data, after, s) ==> s == v,
    ensures
        forall|s: S| #[trigger] inner.reads(data, s) ==> s == v,
        forall|s: S| #[trigger] bind.reads(data, s) ==> s == v,
        forall|s: S| #[trigger] generate.reads(data, s) ==> s == v,
{
}

} // verus!
