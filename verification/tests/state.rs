use gui::draw::{Color, Fill, Stroke};
use gui::event::{fire, Click, EventCtx, Handle};
use gui::state::State;
use gui::{MouseButton, Response};

struct Data {
    counter: i32,
    name: String,
}

fn counter_of(d: &mut Data) -> &mut i32 {
    &mut d.counter
}

#[test]
fn state_inner_lends_its_own_value() {
    let mut d = Data { counter: 3, name: String::new() };
    let mut s: State<Data, i32> = State::Inner(5);
    assert_eq!(*s.get_mut(&mut d), 5);
    *s.get_mut(&mut d) = 6;
    assert_eq!(*s.get_mut(&mut d), 6);
    assert_eq!(d.counter, 3);
}

#[test]
fn state_bind_reaches_the_field() {
    let mut d = Data { counter: 3, name: String::from("x") };
    let mut s: State<Data, i32> = State::Bind(Box::new(counter_of));
    assert_eq!(*s.get_mut(&mut d), 3);
    *s.get_mut(&mut d) += 1;
    assert_eq!(d.counter, 4);
}

#[test]
fn state_generate_computes_anew_each_time() {
    let mut d = Data { counter: 4, name: String::from("x") };
    let mut g: State<Data, String> =
        State::Generate(String::new(), Box::new(|d: &mut Data| format!("{}{}", d.name, d.counter)));
    assert_eq!(g.get_mut(&mut d).as_str(), "x4");
    g.get_mut(&mut d).push('!');
    d.counter = 5;
    assert_eq!(g.get_mut(&mut d).as_str(), "x5");
}

#[test]
fn state_bindings_read_alike() {
    let mut d = Data { counter: 9, name: String::new() };
    let mut inner: State<Data, i32> = State::Inner(9);
    let mut bind: State<Data, i32> = State::Bind(Box::new(counter_of));
    let mut generate: State<Data, i32> = State::Generate(0, Box::new(|d: &mut Data| d.counter));
    let a = *inner.get_mut(&mut d);
    let b = *bind.get_mut(&mut d);
    let c = *generate.get_mut(&mut d);
    assert_eq!((a, b, c), (9, 9, 9));
}

#[test]
fn fire_runs_the_callback() {
    let mut d = Data { counter: 0, name: String::new() };
    let h: Handle<Data, Click, ()> =
        Some(Box::new(|ctx: EventCtx<Data, Click, ()>| ctx.data.counter += 1));
    fire(&h, &mut d);
    fire(&h, &mut d);
    assert_eq!(d.counter, 2);
    let none: Handle<Data, Click, ()> = None;
    fire(&none, &mut d);
    assert_eq!(d.counter, 2);
}

#[test]
fn event_ctx_map_keeps_the_data() {
    let mut d = Data { counter: 1, name: String::new() };
    {
        let ctx: EventCtx<Data, Click, u8> = EventCtx::new(&mut d);
        let mapped: EventCtx<Data, Click, u16> = ctx.map();
        mapped.data.counter = 7;
    }
    assert_eq!(d.counter, 7);
}

#[test]
fn response_remembers_a_request() {
    let mut r = Response::new();
    assert!(!r.needs_redraw());
    r.redraw();
    assert!(r.needs_redraw());
    r.redraw();
    assert!(r.needs_redraw());
}

#[test]
fn colors_and_fills() {
    assert_eq!(Color::new(1, 2, 3, 4), Color { r: 1, g: 2, b: 3, a: 4 });
    assert_eq!(Color::black(), Color::new(0, 0, 0, 0xFF));
    assert_eq!(Color::white(), Color::new(0xFF, 0xFF, 0xFF, 0xFF));
    assert_eq!(Color::red(), Color::new(0xFF, 0, 0, 0xFF));
    assert_eq!(Color::green(), Color::new(0, 0xFF, 0, 0xFF));
    assert_eq!(Color::blue(), Color::new(0, 0, 0xFF, 0xFF));
    assert_eq!(Color::yellow(), Color::new(0xFF, 0xFF, 0, 0xFF));
    assert_eq!(Color::hover_grey(), Color::new(0xD0, 0xD0, 0xD0, 0xFF));
    assert_eq!(Color::new(1, 2, 3, 4).to_array(), [1, 2, 3, 4]);
    assert_eq!(Fill::solid(Color::red()).color(), Color::red());
    let s = Stroke::hairline(Fill::solid(Color::blue()));
    assert_eq!(s.width, 1);
    assert_eq!(s.fill, Fill::Color(Color::blue()));
    assert_ne!(MouseButton::Left, MouseButton::Right);
    assert_eq!(Fill::from(Color::green()), Fill::Color(Color::green()));
    assert_eq!(Stroke::from(Color::green()), Stroke { width: 1, fill: Fill::Color(Color::green()) });
    assert_eq!(Stroke::from(Fill::solid(Color::red())).fill.color(), Color::red());
}
