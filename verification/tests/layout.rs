use gui::layout::{Bounds, Direction, LayoutReq, Span};

#[test]
fn span_constructors() {
    assert_eq!((Span::zero().lower(), Span::zero().upper()), (0, Some(0)));
    assert_eq!((Span::fill().lower(), Span::fill().upper()), (0, None));
    assert_eq!((Span::exactly(5).lower(), Span::exactly(5).upper()), (5, Some(5)));
    assert_eq!((Span::min(5).lower(), Span::min(5).upper()), (5, None));
}

#[test]
fn span_add_zero_is_identity() {
    for x in [Span::exactly(7), Span::min(3), Span::fill(), Span::zero()] {
        let s = Span::zero().add(x);
        assert_eq!((s.lower(), s.upper()), (x.lower(), x.upper()));
        let s = x.add(Span::zero());
        assert_eq!((s.lower(), s.upper()), (x.lower(), x.upper()));
    }
}

#[test]
fn span_add_sums_both_ends() {
    let s = Span::exactly(7).add(Span::exactly(5));
    assert_eq!((s.lower(), s.upper()), (12, Some(12)));
}

#[test]
fn span_add_of_unbounded_is_unbounded() {
    let s = Span::min(4).add(Span::min(6));
    assert_eq!((s.lower(), s.upper()), (10, None));
    let s = Span::exactly(4).add(Span::min(6));
    assert_eq!((s.lower(), s.upper()), (10, None));
}

#[test]
fn span_add_stops_at_the_limits() {
    let s = Span::exactly(i64::MAX).add(Span::exactly(1));
    assert_eq!((s.lower(), s.upper()), (i64::MAX, Some(i64::MAX)));
    let s = Span::exactly(i64::MIN).add(Span::exactly(-1));
    assert_eq!((s.lower(), s.upper()), (i64::MIN, Some(i64::MIN)));
    let s = Span::exactly(u32::MAX as i64).add(Span::exactly(1));
    assert_eq!((s.lower(), s.upper()), (4294967296, Some(4294967296)));
}

#[test]
fn span_max_with_itself_is_identity() {
    for x in [Span::exactly(7), Span::min(3), Span::fill(), Span::zero()] {
        let s = x.max(x);
        assert_eq!((s.lower(), s.upper()), (x.lower(), x.upper()));
    }
}

#[test]
fn span_max_of_two_exact_spans() {
    let s = Span::exactly(3).max(Span::exactly(8));
    assert_eq!(s.lower(), 8);
    assert_eq!(s.upper(), Some(3));
}

#[test]
fn span_max_keeps_the_bound_that_is_there() {
    let s = Span::min(3).max(Span::exactly(8));
    assert_eq!((s.lower(), s.upper()), (8, Some(8)));
    let s = Span::exactly(8).max(Span::min(3));
    assert_eq!((s.lower(), s.upper()), (8, Some(8)));
    let s = Span::min(3).max(Span::min(9));
    assert_eq!((s.lower(), s.upper()), (9, None));
}

#[test]
fn layout_req_any_is_unconstrained() {
    let r = LayoutReq::any();
    assert_eq!((r.width().lower(), r.width().upper()), (0, None));
    assert_eq!((r.height().lower(), r.height().upper()), (0, None));
}

#[test]
fn layout_req_padded_adds_twice_the_padding() {
    let r = LayoutReq::new([Span::exactly(10), Span::min(4)]).padded(3);
    assert_eq!((r.width().lower(), r.width().upper()), (16, Some(16)));
    assert_eq!((r.height().lower(), r.height().upper()), (10, None));
}

#[test]
fn layout_req_padded_twice_is_padded_by_the_sum() {
    let r = LayoutReq::new([Span::exactly(10), Span::min(4)]);
    let a = r.padded(3).padded(5);
    let b = r.padded(8);
    assert_eq!((a.width().lower(), a.width().upper()), (b.width().lower(), b.width().upper()));
    assert_eq!((a.height().lower(), a.height().upper()), (b.height().lower(), b.height().upper()));
    assert_eq!(a.width().lower(), 26);
}

#[test]
fn layout_req_axes() {
    let r = LayoutReq::new([Span::exactly(10), Span::exactly(20)]);
    assert_eq!(r.along(Direction::Horizontal).lower(), 10);
    assert_eq!(r.along(Direction::Vertical).lower(), 20);
    assert_eq!(r.across(Direction::Horizontal).lower(), 20);
    assert_eq!(Direction::Horizontal.index(), 0);
    assert_eq!(Direction::Vertical.index(), 1);
    let o = LayoutReq::oriented(Direction::Vertical, Span::exactly(1), Span::exactly(2));
    assert_eq!((o.width().lower(), o.height().lower()), (2, 1));
}

#[test]
fn bounds_global_is_at_the_origin() {
    let b = Bounds::global([640, 480]);
    assert_eq!(b.pos(), [0, 0]);
    assert_eq!(b.size(), [640, 480]);
}

#[test]
fn window_inside_parent_is_as_asked() {
    let b = Bounds::global([100, 50]).window([10, 5], [20, 30]);
    assert_eq!(b.pos(), [10, 5]);
    assert_eq!(b.size(), [20, 30]);
    let c = b.window([5, 5], [5, 5]);
    assert_eq!(c.pos(), [15, 10]);
    assert_eq!(c.size(), [5, 5]);
}

#[test]
fn window_is_clamped_to_parent() {
    let root = Bounds::global([100, 50]);
    let w = root.window([-5, 40], [200, 200]);
    assert_eq!(w.pos(), [0, 40]);
    assert_eq!(w.size(), [100, 10]);
    let w = root.window([500, 500], [7, 7]);
    assert_eq!(w.pos(), [100, 50]);
    assert_eq!(w.size(), [0, 0]);
    let w = root.window([i64::MIN, i64::MAX], [u32::MAX, u32::MAX]);
    assert_eq!(w.pos(), [0, 50]);
    assert_eq!(w.size(), [100, 0]);
}

#[test]
fn window_never_ends_after_parent() {
    let parent = Bounds::global([300, 200]).window([40, 30], [100, 80]);
    for px in [-50i64, 0, 10, 99, 100, 101, 1000] {
        for sw in [0u32, 1, 50, 100, 101, 5000] {
            let w = parent.window([px, px], [sw, sw]);
            assert!(w.pos()[0] + w.size()[0] <= 140);
            assert!(w.pos()[1] + w.size()[1] <= 110);
            assert!(w.pos()[0] >= 40 && w.pos()[1] >= 30);
        }
    }
}

#[test]
fn padded_window_shrinks_every_side() {
    let b = Bounds::global([100, 50]).padded_window(8);
    assert_eq!(b.pos(), [8, 8]);
    assert_eq!(b.size(), [84, 34]);
}

#[test]
fn padded_window_stops_at_half() {
    let b = Bounds::global([100, 10]).padded_window(8);
    assert_eq!(b.pos(), [8, 5]);
    assert_eq!(b.size(), [84, 0]);
    let b = Bounds::global([7, 7]).padded_window(100);
    assert_eq!(b.pos(), [3, 3]);
    assert_eq!(b.size(), [1, 1]);
}

#[test]
fn contains_is_closed_at_the_near_edge_and_open_at_the_far_edge() {
    let b = Bounds::global([100, 50]).window([10, 10], [20, 20]);
    assert!(b.contains([10, 10]));
    assert!(b.contains([29, 29]));
    assert!(!b.contains([30, 29]));
    assert!(!b.contains([29, 30]));
    assert!(!b.contains([9, 10]));
    assert!(!b.contains([-1, -1]));
    assert!(!Bounds::global([0, 0]).contains([0, 0]));
}

#[test]
fn span_plus_is_add() {
    let s = Span::exactly(7) + Span::min(5);
    assert_eq!((s.lower(), s.upper()), (12, None));
    let s = Span::exactly(i64::MAX) + Span::exactly(i64::MAX);
    assert_eq!((s.lower(), s.upper()), (i64::MAX, Some(i64::MAX)));
}

#[test]
fn negative_padding_takes_away_and_never_stops_at_zero() {
    let r = LayoutReq::new([Span::exactly(10), Span::min(4)]).padded(-8);
    assert_eq!((r.width().lower(), r.width().upper()), (-6, Some(-6)));
    assert_eq!((r.height().lower(), r.height().upper()), (-12, None));
    let back = r.padded(8);
    assert_eq!((back.width().lower(), back.width().upper()), (10, Some(10)));
    assert_eq!((back.height().lower(), back.height().upper()), (4, None));
    let s = Span::exactly(3).padded(-2);
    assert_eq!((s.lower(), s.upper()), (-1, Some(-1)));
}

#[test]
fn padded_window_with_negative_padding_is_the_parent() {
    let b = Bounds::global([100, 50]).window([10, 10], [20, 20]);
    let p = b.padded_window(-5);
    assert_eq!((p.pos(), p.size()), ([10, 10], [20, 20]));
    let p = b.padded_window(i64::MIN);
    assert_eq!((p.pos(), p.size()), ([10, 10], [20, 20]));
    let p = b.padded_window(i64::MAX);
    assert_eq!((p.pos(), p.size()), ([20, 20], [0, 0]));
}

#[test]
fn bounds_of_a_span_as_lengths() {
    assert_eq!(gui::layout::length(-1), 0);
    assert_eq!(gui::layout::length(0), 0);
    assert_eq!(gui::layout::length(77), 77);
    assert_eq!(gui::layout::length(u32::MAX as i64 + 1), u32::MAX);
}
