use gui::canvas::{Canvas, Primitive};
use gui::draw::{Color, Fill, Stroke};
use gui::event::Click;
use gui::layout::{Bounds, Direction};
use gui::widget::{Button, Label, List, Padded, Toggle};
use gui::{Build, Element, Event, MouseButton, Response, Widget};

struct Data {
    counter: i32,
    enabled: bool,
    outer_clicks: u32,
    inner_clicks: u32,
}

fn data() -> Data {
    Data { counter: 0, enabled: false, outer_clicks: 0, inner_clicks: 0 }
}

fn enabled_of(d: &mut Data) -> &mut bool {
    &mut d.enabled
}

fn click(root: &mut Element<Data>, d: &mut Data, at: [i64; 2]) -> (bool, bool) {
    let mut resp = Response::new();
    let consumed = root.handle(d, &Event::Click(at, MouseButton::Left), &mut resp);
    (consumed, resp.needs_redraw())
}

fn hover(root: &mut Element<Data>, d: &mut Data, at: [i64; 2]) -> (bool, bool) {
    let mut resp = Response::new();
    let consumed = root.handle(d, &Event::CursorMove(at), &mut resp);
    (consumed, resp.needs_redraw())
}

fn texts(canvas: &Canvas) -> Vec<String> {
    let mut out = Vec::new();
    for p in canvas.primitives() {
        if let Primitive::Text { text, .. } = p {
            out.push(text.clone());
        }
    }
    out
}

fn fills(canvas: &Canvas) -> Vec<Color> {
    let mut out = Vec::new();
    for p in canvas.primitives() {
        if let Primitive::Rect { fill: Fill::Color(c), .. } = p {
            out.push(*c);
        }
    }
    out
}

fn counter_ui<'a>() -> Element<'a, Data> {
    List::<Data>::vertical()
        .push(Label::<Data>::gen_state(|d: &mut Data| format!("{}", d.counter)))
        .push(
            Button::<Data>::default_state()
                .containing(Label::<Data>::with_state(String::from("+")))
                .on(Click, |ctx| ctx.data.counter += 1),
        )
        .push(
            Button::<Data>::default_state()
                .containing(Label::<Data>::with_state(String::from("-")))
                .on(Click, |ctx| ctx.data.counter -= 1),
        )
        .finish()
}

#[test]
fn counter_scenario() {
    let mut d = data();
    let mut root = counter_ui();
    let req = root.get_layout_req();
    assert_eq!((req.width().lower(), req.width().upper()), (96, Some(96)));
    assert_eq!((req.height().lower(), req.height().upper()), (96, Some(96)));
    root.fit_bounds(Bounds::global([96, 96]));
    for _ in 0..3 {
        assert_eq!(click(&mut root, &mut d, [10, 40]), (true, true));
    }
    assert_eq!(click(&mut root, &mut d, [10, 70]), (true, true));
    assert_eq!(d.counter, 2);
    let mut canvas = Canvas::new();
    root.draw(&mut d, &mut canvas);
    assert_eq!(texts(&canvas), vec!["2", "+", "-"]);
}

#[test]
fn click_on_a_label_is_not_consumed() {
    let mut d = data();
    let mut root = counter_ui();
    root.get_layout_req();
    root.fit_bounds(Bounds::global([96, 96]));
    assert_eq!(click(&mut root, &mut d, [10, 10]), (false, false));
    assert_eq!(click(&mut root, &mut d, [10, 96]), (false, false));
    assert_eq!(d.counter, 0);
}

#[test]
fn toggle_scenario() {
    let mut d = data();
    let mut root = Toggle::<Data>::bind_state(enabled_of).finish();
    root.get_layout_req();
    root.fit_bounds(Bounds::global([50, 50]));
    let mut before = Canvas::new();
    root.draw(&mut d, &mut before);
    assert_eq!(fills(&before), vec![Color::white()]);
    assert_eq!(click(&mut root, &mut d, [20, 20]), (true, true));
    assert!(d.enabled);
    let mut canvas = Canvas::new();
    root.draw(&mut d, &mut canvas);
    assert_eq!(fills(&canvas), vec![Color::blue()]);
    assert_eq!(canvas.primitives().len(), 1);
    match &canvas.primitives()[0] {
        Primitive::Rect { rect, .. } => {
            assert_eq!(rect.pos(), [0, 0]);
            assert_eq!(rect.size(), [50, 50]);
        },
        _ => panic!("a toggle draws a rectangle"),
    }
    assert_eq!(click(&mut root, &mut d, [20, 20]), (true, true));
    assert!(!d.enabled);
    assert_eq!(click(&mut root, &mut d, [50, 20]), (false, false));
    assert!(!d.enabled);
}

#[test]
fn toggle_flips_before_its_handler_runs() {
    let mut d = data();
    let mut root = Toggle::<Data>::bind_state(enabled_of)
        .on(Click, |ctx| ctx.data.counter = if ctx.data.enabled { 1 } else { -1 })
        .finish();
    root.fit_bounds(Bounds::global([50, 50]));
    click(&mut root, &mut d, [1, 1]);
    assert_eq!((d.enabled, d.counter), (true, 1));
    click(&mut root, &mut d, [1, 1]);
    assert_eq!((d.enabled, d.counter), (false, -1));
}

#[test]
fn toggle_with_owned_state_leaves_the_data_alone() {
    let mut d = data();
    let mut root = Toggle::<Data>::with_state(false).finish();
    root.fit_bounds(Bounds::global([50, 50]));
    click(&mut root, &mut d, [1, 1]);
    assert!(!d.enabled);
    let mut canvas = Canvas::new();
    root.draw(&mut d, &mut canvas);
    assert_eq!(fills(&canvas), vec![Color::blue()]);
}

#[test]
fn nested_button_gets_the_click() {
    let mut d = data();
    let mut root = Button::<Data>::default_state()
        .containing(
            Button::<Data>::default_state()
                .on(Click, |ctx| ctx.data.inner_clicks += 1)
                .padded(10),
        )
        .on(Click, |ctx| ctx.data.outer_clicks += 1)
        .finish();
    root.get_layout_req();
    root.fit_bounds(Bounds::global([100, 100]));
    assert_eq!(click(&mut root, &mut d, [50, 50]), (true, true));
    assert_eq!((d.inner_clicks, d.outer_clicks), (1, 0));
    assert_eq!(click(&mut root, &mut d, [5, 5]), (true, true));
    assert_eq!((d.inner_clicks, d.outer_clicks), (1, 1));
    assert_eq!(click(&mut root, &mut d, [100, 100]), (false, false));
    assert_eq!((d.inner_clicks, d.outer_clicks), (1, 1));
}

#[test]
fn hover_asks_for_a_redraw_only_when_it_changes() {
    let mut d = data();
    let mut root = Button::<Data>::default_state().finish();
    root.fit_bounds(Bounds::global([10, 10]));
    assert_eq!(hover(&mut root, &mut d, [20, 20]), (false, false));
    assert_eq!(hover(&mut root, &mut d, [5, 5]), (false, true));
    assert_eq!(hover(&mut root, &mut d, [6, 6]), (false, false));
    let mut canvas = Canvas::new();
    root.draw(&mut d, &mut canvas);
    assert_eq!(fills(&canvas), vec![Color::hover_grey()]);
    assert_eq!(hover(&mut root, &mut d, [10, 6]), (false, true));
    let mut canvas = Canvas::new();
    root.draw(&mut d, &mut canvas);
    assert_eq!(fills(&canvas), vec![Color::white()]);
}

#[test]
fn toggle_hover_is_yellow() {
    let mut d = data();
    let mut root = Toggle::<Data>::with_state(true).finish();
    root.fit_bounds(Bounds::global([10, 10]));
    assert_eq!(hover(&mut root, &mut d, [5, 5]), (false, true));
    let mut canvas = Canvas::new();
    root.draw(&mut d, &mut canvas);
    assert_eq!(fills(&canvas), vec![Color::yellow()]);
}

#[test]
fn list_stops_at_the_first_child_that_consumes() {
    let mut d = data();
    let mut root = List::<Data>::new(Direction::Horizontal)
        .push(Button::<Data>::default_state().on(Click, |ctx| ctx.data.inner_clicks += 1))
        .push(Button::<Data>::default_state().on(Click, |ctx| ctx.data.outer_clicks += 1))
        .finish();
    // Not arranged yet: both children still have the empty rectangle.
    assert_eq!(click(&mut root, &mut d, [0, 0]), (false, false));
    root.get_layout_req();
    root.fit_bounds(Bounds::global([100, 20]));
    assert_eq!(click(&mut root, &mut d, [49, 5]), (true, true));
    assert_eq!((d.inner_clicks, d.outer_clicks), (1, 0));
    assert_eq!(click(&mut root, &mut d, [50, 5]), (true, true));
    assert_eq!((d.inner_clicks, d.outer_clicks), (1, 1));
}

#[test]
fn list_requirement_and_arrangement() {
    let mut list = List::<Data>::horizontal()
        .push(Label::<Data>::with_state(String::from("a")))
        .push(Label::<Data>::with_state(String::from("b")).padded(4));
    assert_eq!(list.len(), 2);
    let req = list.get_layout_req();
    assert_eq!((req.width().lower(), req.width().upper()), (200, Some(200)));
    assert_eq!((req.height().lower(), req.height().upper()), (40, Some(32)));
    list.fit_bounds(Bounds::global([300, 60]));
    let mut canvas = Canvas::new();
    let mut d = data();
    list.draw(&mut d, Bounds::global([300, 60]), &mut canvas);
    let at: Vec<[u32; 2]> = canvas
        .primitives()
        .iter()
        .map(|p| match p {
            Primitive::Text { pos, .. } => *pos,
            _ => panic!("labels draw text"),
        })
        .collect();
    // 96 + 50 for the first child, then the second one, 4 inside its margin.
    assert_eq!(at, vec![[0, 0], [150, 4]]);
}

#[test]
fn list_scales_children_down_when_short() {
    let mut list = List::<Data>::vertical()
        .push(Button::<Data>::default_state().containing(Label::<Data>::with_state(String::new())))
        .push(Button::<Data>::default_state().containing(Label::<Data>::with_state(String::new())));
    list.get_layout_req();
    list.fit_bounds(Bounds::global([96, 32]));
    let mut canvas = Canvas::new();
    let mut d = data();
    list.draw(&mut d, Bounds::global([96, 32]), &mut canvas);
    let rects: Vec<([u32; 2], [u32; 2])> = canvas
        .primitives()
        .iter()
        .filter_map(|p| match p {
            Primitive::Rect { rect, .. } => Some((rect.pos(), rect.size())),
            _ => None,
        })
        .collect();
    assert_eq!(rects, vec![([0, 0], [96, 16]), ([0, 16], [96, 16])]);
}

#[test]
fn padded_requirement_and_hit_test() {
    let mut d = data();
    let mut p: Padded<Data, Button<Data>> =
        Button::<Data>::default_state().on(Click, |ctx| ctx.data.counter += 1).padded(8);
    let req = p.get_layout_req();
    assert_eq!((req.width().lower(), req.width().upper()), (16, None));
    let mut resp = Response::new();
    let b = Bounds::global([40, 40]);
    assert!(!p.handle(&mut d, &Event::Click([7, 7], MouseButton::Left), b, &mut resp));
    assert!(!resp.needs_redraw());
    assert!(p.handle(&mut d, &Event::Click([8, 8], MouseButton::Left), b, &mut resp));
    assert!(resp.needs_redraw());
    assert!(!p.handle(&mut d, &Event::Click([32, 32], MouseButton::Left), b, &mut resp));
    assert_eq!(d.counter, 1);
}

#[test]
fn element_remembers_layout_and_bounds() {
    let mut e: Element<Data> = Label::<Data>::with_state(String::from("x")).finish();
    assert_eq!(e.last_layout_req().width().upper(), None);
    assert_eq!(e.bounds().size(), [0, 0]);
    e.get_layout_req();
    assert_eq!(e.last_layout_req().width().upper(), Some(96));
    assert_eq!(e.last_layout_req().height().lower(), 32);
    e.fit_bounds(Bounds::global([7, 9]));
    assert_eq!(e.bounds().size(), [7, 9]);
}

#[test]
fn bounded_canvas_offsets_and_clamps() {
    let mut canvas = Canvas::new();
    let frame = Bounds::global([100, 100]).window([10, 20], [30, 40]);
    {
        let mut ctx = canvas.bounded(frame);
        assert_eq!(ctx.size(), [30, 40]);
        assert_eq!(ctx.bounds().pos(), [10, 20]);
        ctx.draw_rect([5, 5], [100, 10], Fill::solid(Color::red()));
        ctx.draw_line([0, 0], [50, 50], Stroke::hairline(Fill::solid(Color::green())));
        ctx.draw_text([-3, 7], String::from("hi"), 20, Color::black());
        ctx.fill(Fill::solid(Color::blue()));
    }
    let p = canvas.primitives();
    assert_eq!(p.len(), 4);
    match &p[0] {
        Primitive::Rect { rect, fill } => {
            assert_eq!((rect.pos(), rect.size()), ([15, 25], [25, 10]));
            assert_eq!(*fill, Fill::Color(Color::red()));
        },
        _ => panic!("first comes the rectangle"),
    }
    match &p[1] {
        Primitive::Line { start, end, stroke } => {
            assert_eq!((*start, *end), ([10, 20], [40, 60]));
            assert_eq!(stroke.width, 1);
        },
        _ => panic!("then the line"),
    }
    match &p[2] {
        Primitive::Text { pos, text, height, col } => {
            assert_eq!(*pos, [10, 27]);
            assert_eq!(text.as_str(), "hi");
            assert_eq!(*height, 20);
            assert_eq!(*col, Color::black());
        },
        _ => panic!("then the text"),
    }
    match &p[3] {
        Primitive::Rect { rect, .. } => assert_eq!((rect.pos(), rect.size()), ([10, 20], [30, 40])),
        _ => panic!("last the fill"),
    }
}

#[test]
fn children_can_be_looked_at() {
    let list = List::<Data>::horizontal()
        .push(Label::<Data>::with_state(String::from("a")))
        .push(Button::<Data>::default_state().containing(Label::<Data>::default_state()));
    assert!(list.child(0).is_some());
    assert!(list.child(1).is_some());
    assert!(list.child(2).is_none());
    assert!(Button::<Data>::default_state().child().is_none());
    assert!(Toggle::<Data>::default_state()
        .containing(Label::<Data>::default_state())
        .child()
        .is_some());
    assert_eq!(Canvas::default().primitives().len(), 0);
}

#[test]
fn list_counts_a_negative_minimum_as_nothing() {
    let mut list = List::<Data>::horizontal()
        .push(Label::<Data>::with_state(String::from("a")).padded(-60))
        .push(Label::<Data>::with_state(String::from("b")));
    let req = list.get_layout_req();
    assert_eq!((req.width().lower(), req.width().upper()), (72, Some(72)));
    assert_eq!(list.child(0).unwrap().last_layout_req().width().lower(), -24);
    list.fit_bounds(Bounds::global([100, 10]));
    assert_eq!(list.child(0).unwrap().bounds().size(), [2, 10]);
    assert_eq!(list.child(1).unwrap().bounds().pos(), [2, 0]);
    assert_eq!(list.child(1).unwrap().bounds().size(), [98, 10]);
}

#[test]
fn children_are_counted_and_located_through_an_element() {
    let mut root: Element<Data> = List::<Data>::vertical()
        .push(Label::<Data>::with_state(String::from("a")))
        .push(Button::<Data>::default_state().containing(Label::<Data>::default_state()).padded(4))
        .finish();
    assert_eq!(root.child_count(), 2);
    assert!(root.child_bounds(2).is_none());
    assert_eq!(root.child_bounds(0).unwrap().size(), [0, 0]);
    root.get_layout_req();
    root.fit_bounds(Bounds::global([200, 100]));
    let first = root.child_bounds(0).unwrap();
    let second = root.child_bounds(1).unwrap();
    assert_eq!((first.pos(), first.size()), ([0, 0], [200, 46]));
    assert_eq!((second.pos(), second.size()), ([0, 46], [200, 54]));
    let label = Label::<Data>::with_state(String::new());
    assert_eq!(label.child_count(), 0);
    assert!(label.child_bounds(0).is_none());
    let button = Button::<Data>::default_state().containing(Label::<Data>::default_state());
    assert_eq!(button.child_count(), 1);
    assert!(button.child_bounds(0).is_some());
    assert!(button.child_bounds(1).is_none());
    assert_eq!(button.padded(3).child_count(), 1);
}

#[test]
fn list_hands_out_every_unit() {
    let mut list = List::<Data>::horizontal()
        .push(Button::<Data>::default_state())
        .push(Button::<Data>::default_state())
        .push(Button::<Data>::default_state());
    list.get_layout_req();
    list.fit_bounds(Bounds::global([10, 30]));
    let widths: Vec<u32> = (0..3).map(|i| list.child(i).unwrap().bounds().size()[0]).collect();
    let starts: Vec<u32> = (0..3).map(|i| list.child(i).unwrap().bounds().pos()[0]).collect();
    assert_eq!(widths, vec![4, 3, 3]);
    assert_eq!(starts, vec![0, 4, 7]);
}

#[test]
fn nested_buttons_work_without_measuring() {
    let mut d = data();
    let mut b = Button::<Data>::default_state()
        .containing(
            Button::<Data>::default_state().on(Click, |c| c.data.inner_clicks += 1).padded(20),
        )
        .on(Click, |c| c.data.outer_clicks += 1);
    let bounds = Bounds::global([100, 100]);
    b.fit_bounds(bounds);
    let mut resp = Response::new();
    assert!(b.handle(&mut d, &Event::Click([5, 5], MouseButton::Left), bounds, &mut resp));
    assert_eq!((d.inner_clicks, d.outer_clicks), (0, 1));
    assert!(b.handle(&mut d, &Event::Click([20, 20], MouseButton::Left), bounds, &mut resp));
    assert_eq!((d.inner_clicks, d.outer_clicks), (1, 1));
    assert!(b.handle(&mut d, &Event::Click([80, 80], MouseButton::Left), bounds, &mut resp));
    assert_eq!((d.inner_clicks, d.outer_clicks), (1, 2));
}
