use vstd::prelude::*;
use crate::canvas::{Canvas, Shape};
use crate::element::Element;
use crate::layout::{Bounds, Rect};
use crate::{Event, MouseButton, Response};

verus! {

/// Whether two points are the same.
pub open spec fn same_point(a: [i64; 2], b: [i64; 2]) -> bool {
    a[0] == b[0] && a[1] == b[1]
}

/// Whether the pointer, last seen at `last`, is somewhere else at `now`.
/// A pointer that is nowhere has not moved.
pub open spec fn moved(last: Option<[i64; 2]>, now: Option<[i64; 2]>) -> bool {
    now matches Some(p) && !(last matches Some(q) && same_point(p, q))
}

/// Whether the left button went down over a known position.
pub open spec fn clicked(was_down: bool, down: bool, now: Option<[i64; 2]>) -> bool {
    down && !was_down && now is Some
}

/// The events that one look at the pointer gives: a cursor move if it is
/// somewhere else than before, then a click if the left button went down.
pub open spec fn polled(
    last: Option<[i64; 2]>,
    was_down: bool,
    now: Option<[i64; 2]>,
    down: bool,
) -> Seq<Event> {
    let first = if moved(last, now) {
        seq![Event::CursorMove(now->0)]
    } else {
        Seq::<Event>::empty()
    };
    let second = if clicked(was_down, down, now) {
        seq![Event::Click(now->0, MouseButton::Left)]
    } else {
        Seq::<Event>::empty()
    };
    first + second
}

/// Whether `root`, on `event`, may turn the application state `before`
/// into `after` and become `next`: `next` is `root` with what was measured
/// and arranged kept.
pub open spec fn went<'a, D>(
    root: Element<'a, D>,
    event: Event,
    before: D,
    after: D,
    next: Element<'a, D>,
) -> bool {
    &&& root.reacts(event, before, after)
    &&& root.settled_as(&next)
    &&& root.in_place() ==> next.in_place()
}

/// Whether the events, dispatched first to last, may take the application
/// state from `before` to `after` and the root from `first` to `last`,
/// through the states in `trace` and the roots in `roots`: event `i`
/// finds `trace[i]` and `roots[i]` and leaves `trace[i + 1]` and
/// `roots[i + 1]`.
pub open spec fn ran<'a, D>(
    events: Seq<Event>,
    trace: Seq<D>,
    roots: Seq<Element<'a, D>>,
    before: D,
    after: D,
    first: Element<'a, D>,
    last: Element<'a, D>,
) -> bool {
    &&& trace.len() == events.len() + 1
    &&& roots.len() == events.len() + 1
    &&& trace[0] == before
    &&& trace[events.len() as int] == after
    &&& roots[0] == first
    &&& roots[events.len() as int] == last
    &&& forall|i: int|
        0 <= i < events.len() ==> went(
            #[trigger] roots[i],
            events[i],
            trace[i],
            trace[i + 1],
            roots[i + 1],
        )
}

/// Whether one of the first `upto` events asked for a redraw when it was
/// dispatched.
pub open spec fn asked<'a, D>(events: Seq<Event>, roots: Seq<Element<'a, D>>, upto: int) -> bool {
    exists|i: int| 0 <= i < upto && (#[trigger] roots[i]).redraws(events[i])
}

/// What the host loop remembers from one frame to the next.
#[derive(Debug)]
pub struct Host {
    pointer: Option<[i64; 2]>,
    down: bool,
    size: [u32; 2],
    dirty: bool,
}

impl Host {
    /// Where the pointer was last seen.
    pub closed spec fn pointer(&self) -> Option<[i64; 2]> {
        self.pointer
    }

    /// Whether the left button was down when last looked at.
    pub closed spec fn down(&self) -> bool {
        self.down
    }

    /// The size of the window when last looked at.
    pub closed spec fn size(&self) -> (int, int) {
        (self.size[0] as int, self.size[1] as int)
    }

    /// Whether the next frame has to be drawn.
    pub closed spec fn dirty(&self) -> bool {
        self.dirty
    }

    /// A host that has seen nothing yet: no pointer, no button, an empty
    /// window, and a first frame to draw.
    pub fn new() -> (h: Self)
        ensures
            h.pointer() is None,
            !h.down(),
            h.size() == (0int, 0int),
            h.dirty(),
    {
        Host { pointer: None, down: false, size: [0, 0], dirty: true }
    }

    /// Whether the next frame has to be drawn.
    pub fn is_dirty(&self) -> (d: bool)
        ensures
            d == self.dirty(),
    {
        self.dirty
    }

    /// Takes note of where the pointer is and whether the left button is
    /// down, and returns the events that follow from it.
    pub fn poll(&mut self, now: Option<[i64; 2]>, down: bool) -> (events: Vec<Event>)
        ensures
            events@ == polled(old(self).pointer(), old(self).down(), now, down),
            final(self).pointer() == now,
            final(self).down() == down,
            final(self).size() == old(self).size(),
            final(self).dirty() == old(self).dirty(),
    {
        let mut events: Vec<Event> = Vec::new();
        match now {
            Some(p) => {
                let same = match self.pointer {
                    Some(q) => p[0] == q[0] && p[1] == q[1],
                    None => false,
                };
                if !same {
                    events.push(Event::CursorMove(p));
                }
                if down && !self.down {
                    events.push(Event::Click(p, MouseButton::Left));
                }
            },
            None => {},
        }
        self.pointer = now;
        self.down = down;
        assert(events@ =~= polled(old(self).pointer(), old(self).down(), now, down));
        events
    }

    /// Takes note of the size of the window. A change of size asks for the
    /// next frame to be drawn.
    pub fn resize(&mut self, size: [u32; 2])
        ensures
            final(self).size() == (size[0] as int, size[1] as int),
            final(self).dirty() == (old(self).dirty() || final(self).size() != old(self).size()),
            final(self).pointer() == old(self).pointer(),
            final(self).down() == old(self).down(),
    {
        if size[0] != self.size[0] || size[1] != self.size[1] {
            self.size = size;
            self.dirty = true;
        }
    }

    /// Dispatches one event to `root`. If the dispatch asks for a redraw,
    /// the next frame has to be drawn. Returns whether the event was
    /// consumed.
    pub fn dispatch<'a, D>(&mut self, root: &mut Element<'a, D>, data: &mut D, event: &Event) -> (consumed:
        bool)
        requires
            old(root).ready(),
        ensures
            consumed == old(root).hits(*event),
            final(self).dirty() == (old(self).dirty() || old(root).redraws(*event)),
            old(root).reacts(*event, *old(data), *final(data)),
            old(root).settled_as(final(root)),
            old(root).in_place() ==> final(root).in_place(),
            *event is Click ==> old(root).calm_as(final(root)),
            *event is Click && old(root).alert() ==> final(root).alert(),
            final(self).pointer() == old(self).pointer(),
            final(self).down() == old(self).down(),
            final(self).size() == old(self).size(),
    {
        let mut resp = Response::new();
        let consumed = root.handle(data, event, &mut resp);
        if resp.needs_redraw() {
            self.dirty = true;
        }
        consumed
    }

    /// Dispatches the events to `root`, first to last. The next frame has
    /// to be drawn if it had to before or if one of the dispatches asks
    /// for a redraw.
    pub fn dispatch_all<'a, D>(&mut self, root: &mut Element<'a, D>, data: &mut D, events: &Vec<Event>)
        requires
            old(root).ready(),
        ensures
            old(root).settled_as(final(root)),
            old(root).in_place() ==> final(root).in_place(),
            exists|trace: Seq<D>, roots: Seq<Element<'a, D>>|
                {
                    &&& #[trigger] ran(
                        events@,
                        trace,
                        roots,
                        *old(data),
                        *final(data),
                        *old(root),
                        *final(root),
                    )
                    &&& final(self).dirty() == (old(self).dirty() || asked(
                        events@,
                        roots,
                        events@.len() as int,
                    ))
                },
            final(self).pointer() == old(self).pointer(),
            final(self).down() == old(self).down(),
            final(self).size() == old(self).size(),
    {
        let ghost mut trace: Seq<D> = seq![*data];
        let ghost mut roots: Seq<Element<'a, D>> = seq![*root];
        let n = events.len();
        let mut i: usize = 0;
        while i < n
            invariant
                i <= n,
                n == events@.len(),
                root.ready(),
                old(root).settled_as(root),
                old(root).in_place() ==> root.in_place(),
                trace.len() == i + 1,
                roots.len() == i + 1,
                trace[0] == *old(data),
                trace[i as int] == *data,
                roots[0] == *old(root),
                roots[i as int] == *root,
                forall|j: int|
                    0 <= j < i ==> went(
                        #[trigger] roots[j],
                        events@[j],
                        trace[j],
                        trace[j + 1],
                        roots[j + 1],
                    ),
                self.dirty() == (old(self).dirty() || asked(events@, roots, i as int)),
                self.pointer() == old(self).pointer(),
                self.down() == old(self).down(),
                self.size() == old(self).size(),
            decreases n - i,
        {
            let ghost before = *data;
            let ghost was = *root;
            let ghost was_dirty = self.dirty();
            self.dispatch(root, data, &events[i]);
            proof {
                let longer = trace.push(*data);
                let more = roots.push(*root);
                assert(went(was, events@[i as int], before, *data, *root));
                assert forall|j: int| 0 <= j < i + 1 implies went(
                    #[trigger] more[j],
                    events@[j],
                    longer[j],
                    longer[j + 1],
                    more[j + 1],
                ) by {
                    if j < i {
                        assert(went(roots[j], events@[j], trace[j], trace[j + 1], roots[j + 1]));
                    }
                }
                assert(asked(events@, more, i + 1) == (asked(events@, roots, i as int)
                    || was.redraws(events@[i as int]))) by {
                    if asked(events@, roots, i as int) {
                        let k = choose|k: int| 0 <= k < i && (#[trigger] roots[k]).redraws(events@[k]);
                        assert(more[k].redraws(events@[k]));
                    }
                    if was.redraws(events@[i as int]) {
                        assert(more[i as int].redraws(events@[i as int]));
                    }
                    if asked(events@, more, i + 1) {
                        let k = choose|k: int|
                            0 <= k < i + 1 && (#[trigger] more[k]).redraws(events@[k]);
                        if k < i {
                            assert(roots[k].redraws(events@[k]));
                        }
                    }
                }
                old(root).lemma_settled_through(&was, root);
                trace = longer;
                roots = more;
            }
            i = i + 1;
        }
        proof {
            assert(ran(events@, trace, roots, *old(data), *data, *old(root), *root));
        }
    }

    /// Draws the next frame if it has to be drawn: measures `root`,
    /// arranges it in the whole window and collects what it draws.
    /// Returns nothing if there is nothing new to show.
    pub fn render<'a, D>(&mut self, root: &mut Element<'a, D>, data: &mut D) -> (frame: Option<Canvas>)
        requires
            old(root).ready(),
        ensures
            frame is Some == old(self).dirty(),
            !final(self).dirty(),
            final(self).pointer() == old(self).pointer(),
            final(self).down() == old(self).down(),
            final(self).size() == old(self).size(),
            final(root).ready(),
            final(root).req() == old(root).req(),
            old(root).made_as(final(root)),
            !old(self).dirty() ==> *final(root) == *old(root) && *final(data) == *old(data),
            old(self).dirty() ==> final(root).in_place() && final(root).alert(),
            old(self).dirty() ==> final(root).measured() && final(root).fitted(
                Rect::global(old(self).size().0, old(self).size().1),
            ),
            old(self).dirty() ==> exists|arranged: Element<'a, D>|
                {
                    &&& arranged.measured()
                    &&& arranged.fitted(Rect::global(old(self).size().0, old(self).size().1))
                    &&& arranged.req() == old(root).req()
                    &&& #[trigger] arranged.paints(*old(data), *final(data), frame->0@)
                    &&& arranged.settled_as(final(root))
                },
    {
        if !self.dirty {
            return None;
        }
        self.dirty = false;
        root.get_layout_req();
        root.fit_bounds(Bounds::global(self.size));
        let ghost arranged = *root;
        let mut canvas = Canvas::new();
        root.draw(data, &mut canvas);
        proof {
            let shapes = choose|shapes: Seq<Shape>|
                canvas@ == Seq::<Shape>::empty() + shapes && #[trigger] arranged.paints(
                    *old(data),
                    *data,
                    shapes,
                );
            assert(canvas@ =~= shapes);
            assert(arranged.paints(*old(data), *data, canvas@));
        }
        let frame = Some(canvas);
        assert({
            &&& arranged.measured()
            &&& arranged.fitted(Rect::global(old(self).size().0, old(self).size().1))
            &&& arranged.req() == old(root).req()
            &&& arranged.paints(*old(data), *data, frame->0@)
            &&& arranged.settled_as(&*root)
        });
        frame
    }
}

} // verus!
