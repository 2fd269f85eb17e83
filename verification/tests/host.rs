use gui::canvas::Primitive;
use gui::event::Click;
use gui::host::Host;
use gui::widget::{Button, Label, List};
use gui::{Build, Element, Event, MouseButton};

struct Data {
    counter: i32,
}

fn ui<'a>() -> Element<'a, Data> {
    List::<Data>::vertical()
        .push(Label::<Data>::gen_state(|d: &mut Data| format!("{}", d.counter)))
        .push(Button::<Data>::default_state().on(Click, |ctx| ctx.data.counter += 1))
        .finish()
}

fn kinds(events: &[Event]) -> Vec<(bool, [i64; 2])> {
    events
        .iter()
        .map(|e| match e {
            Event::CursorMove(p) => (false, *p),
            Event::Click(p, MouseButton::Left) => (true, *p),
            Event::Click(..) => panic!("only the left button is polled"),
        })
        .collect()
}

#[test]
fn poll_reports_a_move_only_when_the_pointer_moved() {
    let mut host = Host::new();
    assert_eq!(kinds(&host.poll(None, false)), vec![]);
    assert_eq!(kinds(&host.poll(Some([3, 4]), false)), vec![(false, [3, 4])]);
    assert_eq!(kinds(&host.poll(Some([3, 4]), false)), vec![]);
    assert_eq!(kinds(&host.poll(Some([3, 5]), false)), vec![(false, [3, 5])]);
    assert_eq!(kinds(&host.poll(None, false)), vec![]);
    assert_eq!(kinds(&host.poll(Some([3, 5]), false)), vec![(false, [3, 5])]);
}

#[test]
fn poll_reports_a_click_when_the_button_goes_down() {
    let mut host = Host::new();
    assert_eq!(kinds(&host.poll(Some([1, 1]), true)), vec![(false, [1, 1]), (true, [1, 1])]);
    assert_eq!(kinds(&host.poll(Some([1, 1]), true)), vec![]);
    assert_eq!(kinds(&host.poll(Some([1, 1]), false)), vec![]);
    assert_eq!(kinds(&host.poll(Some([1, 1]), true)), vec![(true, [1, 1])]);
    assert_eq!(kinds(&host.poll(None, false)), vec![]);
    assert_eq!(kinds(&host.poll(None, true)), vec![]);
    assert_eq!(kinds(&host.poll(Some([1, 1]), true)), vec![(false, [1, 1])]);
}

#[test]
fn first_frame_is_drawn_and_the_next_is_not() {
    let mut d = Data { counter: 0 };
    let mut root = ui();
    let mut host = Host::new();
    assert!(host.is_dirty());
    host.resize([96, 64]);
    let frame = host.render(&mut root, &mut d).expect("the first frame is always drawn");
    assert_eq!(frame.primitives().len(), 2);
    assert!(!host.is_dirty());
    assert!(host.render(&mut root, &mut d).is_none());
    host.resize([96, 64]);
    assert!(!host.is_dirty());
    host.resize([96, 65]);
    assert!(host.is_dirty());
}

#[test]
fn a_frame_dispatches_then_draws() {
    let mut d = Data { counter: 0 };
    let mut root = ui();
    let mut host = Host::new();
    host.resize([96, 64]);
    host.render(&mut root, &mut d);
    let events = host.poll(Some([10, 50]), true);
    host.dispatch_all(&mut root, &mut d, &events);
    assert_eq!(d.counter, 1);
    assert!(host.is_dirty());
    let frame = host.render(&mut root, &mut d).expect("a click asks for a redraw");
    match &frame.primitives()[0] {
        Primitive::Text { text, .. } => assert_eq!(text.as_str(), "1"),
        _ => panic!("the label is drawn first"),
    }
    let events = host.poll(Some([10, 50]), true);
    assert!(events.is_empty());
    host.dispatch_all(&mut root, &mut d, &events);
    assert!(!host.is_dirty());
    assert!(host.dispatch(&mut root, &mut d, &Event::Click([0, 63], MouseButton::Right)));
    assert_eq!(d.counter, 2);
    assert!(!host.dispatch(&mut root, &mut d, &Event::Click([0, 64], MouseButton::Middle)));
    assert_eq!(d.counter, 2);
}
