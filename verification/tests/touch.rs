use coinbath::display::Size;
use coinbath::touch::{self, Axis, Decoder, Tap};
use evdev::{AbsoluteAxisCode, EventType, KeyCode};

const SYN: u16 = 0;
const X: u16 = AbsoluteAxisCode::ABS_MT_POSITION_X.0;
const Y: u16 = AbsoluteAxisCode::ABS_MT_POSITION_Y.0;
const ID: u16 = AbsoluteAxisCode::ABS_MT_TRACKING_ID.0;
const TOUCH: u16 = KeyCode::BTN_TOUCH.0;
const ABSOLUTE: u16 = EventType::ABSOLUTE.0;
const KEY: u16 = EventType::KEY.0;
const SYNCHRONIZATION: u16 = EventType::SYNCHRONIZATION.0;

fn decoder() -> Decoder {
    Decoder::new(
        Size { width: 1280, height: 400 },
        Axis { min: 0, max: 4095 },
        Axis { min: 0, max: 4095 },
    )
}

#[test]
fn a_touch_is_one_tap_at_its_first_position_scaled_to_the_frame() {
    let mut d = decoder();
    assert_eq!(d.feed(ABSOLUTE, ID, 7), None);
    assert_eq!(d.feed(ABSOLUTE, X, 2048), None);
    assert_eq!(d.feed(ABSOLUTE, Y, 4095), None);
    assert_eq!(d.feed(KEY, TOUCH, 1), None);
    assert_eq!(d.feed(SYNCHRONIZATION, SYN, 0), Some(Tap { x: 640, y: 399 }));

    // Dragging reports positions with no new touch.
    assert_eq!(d.feed(ABSOLUTE, X, 3000), None);
    assert_eq!(d.feed(SYNCHRONIZATION, SYN, 0), None);

    // Lifting and touching again is a new tap.
    d.feed(ABSOLUTE, ID, -1);
    d.feed(KEY, TOUCH, 0);
    assert_eq!(d.feed(SYNCHRONIZATION, SYN, 0), None);
    d.feed(ABSOLUTE, ID, 8);
    d.feed(ABSOLUTE, X, 0);
    d.feed(ABSOLUTE, Y, 0);
    d.feed(KEY, TOUCH, 1);
    assert_eq!(d.feed(SYNCHRONIZATION, SYN, 0), Some(Tap { x: 0, y: 0 }));
}

#[test]
fn a_panel_without_btn_touch_still_taps() {
    let mut d = decoder();
    d.feed(ABSOLUTE, ID, 1);
    d.feed(ABSOLUTE, X, 1024);
    d.feed(ABSOLUTE, Y, 2048);
    assert_eq!(d.feed(SYNCHRONIZATION, SYN, 0), Some(Tap { x: 320, y: 200 }));
}

#[test]
fn a_second_finger_is_a_second_tap_without_btn_touch() {
    let mut d = decoder();
    d.feed(ABSOLUTE, ID, 1);
    assert_eq!(d.feed(SYNCHRONIZATION, SYN, 0), Some(Tap { x: 0, y: 0 }));
    d.feed(ABSOLUTE, ID, 2);
    d.feed(ABSOLUTE, X, 1024);
    d.feed(ABSOLUTE, Y, 2048);
    assert_eq!(d.feed(SYNCHRONIZATION, SYN, 0), Some(Tap { x: 320, y: 200 }));

    // Dragging and lifting either finger is nothing.
    d.feed(ABSOLUTE, X, 3000);
    assert_eq!(d.feed(SYNCHRONIZATION, SYN, 0), None);
    d.feed(ABSOLUTE, ID, -1);
    assert_eq!(d.feed(SYNCHRONIZATION, SYN, 0), None);
}

#[test]
fn a_second_finger_under_btn_touch_is_the_same_touch() {
    let mut d = decoder();
    d.feed(ABSOLUTE, ID, 1);
    d.feed(KEY, TOUCH, 1);
    assert_eq!(d.feed(SYNCHRONIZATION, SYN, 0), Some(Tap { x: 0, y: 0 }));
    d.feed(ABSOLUTE, ID, 2);
    d.feed(ABSOLUTE, X, 1024);
    assert_eq!(d.feed(SYNCHRONIZATION, SYN, 0), None);
}

#[test]
fn an_axis_with_an_offset_range_maps_its_ends_to_the_frame() {
    let axis = Axis { min: 100, max: 300 };
    assert_eq!(axis.scale(100, 1280), 0);
    assert_eq!(axis.scale(300, 1280), 1279);
    assert_eq!(axis.scale(200, 1280), 640);
    assert_eq!(axis.scale(-5, 1280), 0);
}

#[test]
fn the_codes_are_those_of_the_kernel() {
    assert_eq!(touch::EV_SYN, SYNCHRONIZATION);
    assert_eq!(touch::EV_KEY, KEY);
    assert_eq!(touch::EV_ABS, ABSOLUTE);
    assert_eq!(touch::ABS_X, AbsoluteAxisCode::ABS_X.0);
    assert_eq!(touch::ABS_Y, AbsoluteAxisCode::ABS_Y.0);
    assert_eq!(touch::ABS_MT_POSITION_X, X);
    assert_eq!(touch::ABS_MT_POSITION_Y, Y);
    assert_eq!(touch::ABS_MT_TRACKING_ID, ID);
    assert_eq!(touch::BTN_TOUCH, TOUCH);
    assert_eq!(touch::DEVICE_NAME, "TouchScreen");
}

#[test]
fn other_events_are_passed_over() {
    let mut d = decoder();
    let before = d;
    assert_eq!(d.feed(4, 4, 9), None);
    assert_eq!(d.feed(KEY, 30, 1), None);
    assert_eq!(d.feed(ABSOLUTE, 0x30, 1), None);
    assert_eq!(d, before);
    d.feed(ABSOLUTE, touch::ABS_X, 4095);
    d.feed(ABSOLUTE, touch::ABS_Y, 4095);
    assert_eq!((d.x, d.y), (1279, 399));
}

#[test]
fn an_axis_without_a_range_is_one_wide() {
    let axis = Axis { min: 5, max: 5 };
    assert_eq!(axis.scale(5, 10), 0);
    assert_eq!(axis.scale(6, 10), 9);
    let wide = Axis { min: i32::MIN, max: i32::MAX };
    assert_eq!(wide.scale(i32::MAX, 100), 99);
    assert_eq!(wide.scale(i32::MIN, 100), 0);
    assert_eq!(wide.scale(0, 100), 50);
}

#[test]
fn a_place_never_falls_as_the_value_grows() {
    let axis = Axis { min: -7, max: 4095 };
    let mut last = 0;
    for value in -40..4200 {
        let place = axis.scale(value, 1280);
        assert!(place >= last, "{value}");
        last = place;
    }
    assert_eq!(last, 1279);
}
