use tuie::geometry::Vec2;
use tuie::input::{Chord, InputEvent, InputQueue, Trigger};

fn ev(trigger: Trigger, count: u8) -> InputEvent {
    let mut e = InputEvent::from_chord(Chord { trigger });
    e.count = count;
    e
}

#[test]
fn synthetic_event_has_no_mouse_position() {
    let e = InputEvent::from_chord(Chord { trigger: Trigger::Key });
    assert_eq!(e.mouse_pos, Vec2::new(-1, -1));
    assert_eq!(e.mouse_window_pos, Vec2::new(-1, -1));
    assert_eq!(e.mouse_window_subpx, Vec2::new(-1, -1));
    assert_eq!(e.count, 1);
    assert!(!e.is_mouse_event());
    assert!(ev(Trigger::MouseDown, 1).is_mouse_event());
    assert!(ev(Trigger::MouseSmoothScroll, 1).is_mouse_event());
}

#[test]
fn click_cycle_wraps_after_max() {
    assert_eq!(ev(Trigger::MouseDown, 1).get_click_cycle(3), 1);
    assert_eq!(ev(Trigger::MouseDown, 3).get_click_cycle(3), 3);
    assert_eq!(ev(Trigger::MouseDown, 4).get_click_cycle(3), 1);
    assert_eq!(ev(Trigger::MouseDown, 0).get_click_cycle(3), 1);
    assert!(ev(Trigger::MouseDown, 5).is_cycle(2, 3));
    assert!(!ev(Trigger::MouseDown, 5).is_cycle(1, 3));
    for count in 1..200u8 {
        let max = 4u8;
        if count as u16 + max as u16 <= 255 {
            assert_eq!(
                ev(Trigger::MouseDown, count + max).get_click_cycle(max),
                ev(Trigger::MouseDown, count).get_click_cycle(max)
            );
        }
    }
}

#[test]
fn queue_hands_out_events_in_order() {
    let events = [ev(Trigger::Key, 1), ev(Trigger::MouseDown, 2), ev(Trigger::MouseUp, 1)];
    let mut q = InputQueue::new(&events, false);
    assert!(!q.is_flushing());
    assert!(!q.is_unhandled());
    assert_eq!(q.get_consumed(), 0);
    assert_eq!(q.peek(), Some(&events[0]));
    assert_eq!(q.next(), Some(&events[0]));
    assert_eq!(q.get_consumed(), 1);
    assert_eq!(q.get_remaining().len(), 2);
    assert_eq!(q.get_consumed() + q.get_remaining().len(), q.get_all().len());
    assert_eq!(q.next(), Some(&events[1]));
    assert_eq!(q.next(), Some(&events[2]));
    assert_eq!(q.next(), None);
    assert_eq!(q.peek(), None);
    assert_eq!(q.get_consumed(), 3);
    q.reset();
    assert_eq!(q.get_consumed(), 0);
    assert_eq!(q.peek(), Some(&events[0]));
}

#[test]
fn flushing_queue_reports_its_mode() {
    let events = [ev(Trigger::Key, 1)];
    let q = InputQueue::new_flushing(&events, true);
    assert!(q.is_flushing());
    assert!(q.is_unhandled());
    assert_eq!(q.get_all().len(), 1);
}
