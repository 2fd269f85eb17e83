use vstd::prelude::*;
use crate::draw::{Color, Fill, Stroke};
use crate::layout::{clamp, Bounds, Rect};

verus! {

/// A point in absolute coordinates as a mathematical value.
pub struct Point {
    pub x: int,
    pub y: int,
}

/// A draw primitive as a mathematical value.
pub enum Shape {
    Rect { rect: Rect, fill: Fill },
    Line { start: Point, end: Point, stroke: Stroke },
    Text { pos: Point, text: Seq<char>, height: nat, col: Color },
}

/// The point at `(px, py)` relative to `frame`, brought into `frame`:
/// each coordinate is clamped to the extent of `frame` and then offset by
/// its origin.
pub open spec fn anchored(frame: Rect, px: int, py: int) -> Point {
    Point { x: frame.x + clamp(px, 0, frame.w), y: frame.y + clamp(py, 0, frame.h) }
}

/// An abstract shape to draw, in absolute coordinates.
#[derive(Debug)]
pub enum Primitive {
    Rect { rect: Bounds, fill: Fill },
    Line { start: [u32; 2], end: [u32; 2], stroke: Stroke },
    Text { pos: [u32; 2], text: String, height: u32, col: Color },
}

impl View for Primitive {
    type V = Shape;

    open spec fn view(&self) -> Shape {
        match *self {
            Primitive::Rect { rect, fill } => Shape::Rect { rect: rect@, fill },
            Primitive::Line { start, end, stroke } => Shape::Line {
                start: Point { x: start[0] as int, y: start[1] as int },
                end: Point { x: end[0] as int, y: end[1] as int },
                stroke,
            },
            Primitive::Text { pos, text, height, col } => Shape::Text {
                pos: Point { x: pos[0] as int, y: pos[1] as int },
                text: text@,
                height: height as nat,
                col,
            },
        }
    }
}

/// An append-only list of draw primitives.
pub struct Canvas {
    primitives: Vec<Primitive>,
}

impl View for Canvas {
    type V = Seq<Shape>;

    closed spec fn view(&self) -> Seq<Shape> {
        Seq::new(self.primitives@.len(), |i: int| self.primitives@[i]@)
    }
}

impl Canvas {
    /// An empty canvas.
    pub fn new() -> (c: Self)
        ensures
            c@ == Seq::<Shape>::empty(),
    {
        Canvas { primitives: Vec::new() }
    }

    /// The primitives collected so far, oldest first.
    pub fn primitives(&self) -> (p: &Vec<Primitive>)
        ensures
            p@.len() == self@.len(),
            forall|i: int| 0 <= i < p@.len() ==> p@[i]@ == self@[i],
    {
        &self.primitives
    }

    /// Appends one primitive.
    fn push(&mut self, p: Primitive)
        ensures
            final(self)@ == old(self)@.push(p@),
    {
        self.primitives.push(p);
    }

    /// A drawing context that draws into this canvas relative to `bounds`.
    pub fn bounded<'a>(&'a mut self, bounds: Bounds) -> (b: BoundedCanvas<'a>)
        ensures
            b.frame() == bounds@,
            b.drawn() == old(self)@,
            final(self)@ == final(b.canvas)@,
    {
        BoundedCanvas { bounds, canvas: self }
    }
}

impl Default for Canvas {
    fn default() -> (c: Self)
        ensures
            c@ == Seq::<Shape>::empty(),
    {
        Canvas::new()
    }
}

/// A drawing context bound to a rectangle of a canvas. Coordinates handed
/// to it are relative to that rectangle.
pub struct BoundedCanvas<'a> {
    pub bounds: Bounds,
    pub canvas: &'a mut Canvas,
}

impl<'a> BoundedCanvas<'a> {
    /// The rectangle this context draws into.
    pub open spec fn frame(&self) -> Rect {
        self.bounds@
    }

    /// What the underlying canvas holds.
    pub open spec fn drawn(&self) -> Seq<Shape> {
        self.canvas@
    }

    pub fn size(&self) -> (s: [u32; 2])
        ensures
            s[0] == self.frame().w,
            s[1] == self.frame().h,
    {
        self.bounds.size()
    }

    pub fn bounds(&self) -> (b: Bounds)
        ensures
            b@ == self.frame(),
    {
        self.bounds
    }

    /// Appends a rectangle: the window of the frame at `pos` of the given size.
    pub fn draw_rect(&mut self, pos: [i64; 2], size: [u32; 2], fill: Fill)
        ensures
            final(self).frame() == old(self).frame(),
            *final(final(self).canvas) == *final(old(self).canvas),
            final(self).drawn() == old(self).drawn().push(
                Shape::Rect {
                    rect: old(self).frame().window(
                        pos[0] as int,
                        pos[1] as int,
                        size[0] as int,
                        size[1] as int,
                    ),
                    fill,
                },
            ),
    {
        let rect = self.bounds.window(pos, size);
        self.canvas.push(Primitive::Rect { rect, fill });
    }

    /// Appends a line between two points of the frame.
    pub fn draw_line(&mut self, from: [i64; 2], to: [i64; 2], stroke: Stroke)
        ensures
            final(self).frame() == old(self).frame(),
            *final(final(self).canvas) == *final(old(self).canvas),
            final(self).drawn() == old(self).drawn().push(
                Shape::Line {
                    start: anchored(old(self).frame(), from[0] as int, from[1] as int),
                    end: anchored(old(self).frame(), to[0] as int, to[1] as int),
                    stroke,
                },
            ),
    {
        let start = self.bounds.window(from, [0, 0]).pos();
        let end = self.bounds.window(to, [0, 0]).pos();
        self.canvas.push(Primitive::Line { start, end, stroke });
    }

    /// Appends a line of text of the given height at a point of the frame.
    pub fn draw_text(&mut self, pos: [i64; 2], text: String, height: u32, col: Color)
        ensures
            final(self).frame() == old(self).frame(),
            *final(final(self).canvas) == *final(old(self).canvas),
            final(self).drawn() == old(self).drawn().push(
                Shape::Text {
                    pos: anchored(old(self).frame(), pos[0] as int, pos[1] as int),
                    text: text@,
                    height: height as nat,
                    col,
                },
            ),
    {
        let at = self.bounds.window(pos, [0, 0]).pos();
        self.canvas.push(Primitive::Text { pos: at, text, height, col });
    }

    /// Appends a rectangle that covers the whole frame.
    pub fn fill(&mut self, fill: Fill)
        ensures
            final(self).frame() == old(self).frame(),
            *final(final(self).canvas) == *final(old(self).canvas),
            final(self).drawn() == old(self).drawn().push(
                Shape::Rect { rect: old(self).frame(), fill },
            ),
    {
        let size = self.size();
        proof {
            let f = self.frame();
            assert(f.window(0, 0, f.w, f.h) == f);
        }
        self.draw_rect([0, 0], size, fill)
    }
}

} // verus!
