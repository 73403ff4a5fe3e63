use coinbath::control::Limits;
use coinbath::display::Size;
use coinbath::double::Double;
use coinbath::history::Histories;
use coinbath::image::Image;
use coinbath::screen::{
    fahrenheit, hit, tapped, Action, Area, Button, Canvas, Item, Line, Page, Screen, Sheet, Spark,
    ACCENT, BACKGROUND, SETPOINT_STEP_C, TEXT,
};
use coinbath::single::Single;
use coinbath::state::{Board, Chip, Command, Mode, State};
use coinbath::text::{Align, Face};

fn d(x: f64) -> Double {
    Double { bits: x.to_bits() }
}

fn badger() -> Image {
    Image { width: 295, height: 239, data: vec![255; 295 * 239 * 4] }
}

fn screen() -> Screen {
    Screen::new(Limits::default(), badger())
}

fn warm_state() -> State {
    let mut state = State::new(d(51.1), &["bath", "inlet", "outlet"]);
    for (i, t) in [40.0, 39.7, 41.5].into_iter().enumerate() {
        state.probes[i].celsius = Some(d(t));
    }
    state.power_fraction = Some(d(0.6));
    state.miner.online = true;
    state.miner.hashrate_hs = Some(d(7.5e12));
    state.miner.power_w = Some(d(150.0));
    state.miner.chip_temperature_c = Some(d(62.0));
    state.miner.power_fraction = Some(d(0.6));
    state.miner.power_ceiling = Some(d(0.6));
    state.miner.boards = vec![Board {
        name: "emberone-00-2d714701".into(),
        hashrate_hs: Some(d(3.75e12)),
        chip_temperature_c: Some(d(62.0)),
        voltage_v: Some(d(1.2)),
        current_a: Some(d(22.5)),
        power_w: Some(d(27.0)),
        input_voltage_v: Some(d(12.1)),
        regulator_temperature_c: Some(d(55.0)),
        board_temperature_c: Some(d(43.5)),
        power_fraction: Some(d(0.6)),
        power_ceiling: Some(d(0.6)),
        chips: vec![
            Chip { address: 0, nonces: 9, hardware_errors: 0, hashrate_hs: Some(d(312.4e9)) },
            Chip { address: 2, nonces: 7, hardware_errors: 3, hashrate_hs: None },
        ],
    }];
    state
}

fn histories_for(state: &State, samples: usize) -> Histories {
    let mut histories = Histories::default();
    let mut s = state.clone();
    for i in 0..samples {
        s.probes[0].celsius = Some(d(30.0 + i as f64 * 0.1));
        s.miner.hashrate_hs = Some(d(7.0e12 + i as f64 * 1e10));
        histories.sample(&s);
    }
    histories
}

const PANEL_SIZE: Size = Size { width: 1424, height: 280 };

fn words(sheet: &Sheet) -> Vec<String> {
    let mut out = Vec::new();
    for item in &sheet.items {
        if let Item::Text { text, .. } = item {
            out.push(text.clone());
        }
    }
    out
}

fn sparks(sheet: &Sheet) -> Vec<Spark<String>> {
    let mut out = Vec::new();
    for item in &sheet.items {
        if let Item::Spark(spark) = item {
            out.push(spark.clone());
        }
    }
    out
}

#[test]
fn the_main_page_has_the_page_button_and_the_setpoint_buttons() {
    let state = warm_state();
    let histories = histories_for(&state, 100);
    let (_, buttons) = screen().render(PANEL_SIZE, Page::Main, &state, &histories, 41);

    let actions: Vec<Action> = buttons.iter().map(|b| b.action).collect();
    assert_eq!(actions, [Action::TogglePage, Action::SetpointDown, Action::SetpointUp]);
    for b in &buttons {
        let a = b.area;
        assert!(a.x >= 0 && a.y >= 0 && a.x + a.width <= 1424 && a.y + a.height <= 280);
    }
    let down = buttons[1].area;
    assert_eq!(hit(&buttons, down.x + 5, down.y + 5), Some(Action::SetpointDown));
    assert_eq!(hit(&buttons, 700, 150), None);
}

#[test]
fn the_boards_page_lists_the_boards_and_goes_back() {
    let state = warm_state();
    let (sheet, buttons) =
        screen().render(PANEL_SIZE, Page::Boards, &state, &Histories::default(), 41);
    assert_eq!(buttons.len(), 1);
    assert_eq!(buttons[0].action, Action::TogglePage);
    assert_eq!(Page::Boards.other(), Page::Main);
    let words = words(&sheet);
    for text in ["\u{2039} back", "2d714701", "1.200", "22.5", "12.1", "3.75", "60/60%", "TOTAL"] {
        assert!(words.iter().any(|w| w == text), "{text} in {words:?}");
    }
}

#[test]
fn renders_an_empty_state_and_other_sizes_without_panicking() {
    let state = State::new(d(51.1), &["bath"]);
    for (width, height) in [(1424, 280), (1280, 400), (1920, 480), (800, 480), (320, 100)] {
        let size = Size { width, height };
        screen().render(size, Page::Main, &state, &Histories::default(), 41);
        screen().render(size, Page::Boards, &state, &Histories::default(), 41);
    }
    let huge = Size { width: i32::MAX as u32, height: i32::MAX as u32 };
    screen().render(huge, Page::Main, &warm_state(), &Histories::default(), i32::MIN);
    screen().render(huge, Page::Boards, &warm_state(), &Histories::default(), i32::MAX);
}

#[test]
fn a_setpoint_step_is_one_degree_fahrenheit() {
    assert_eq!(fahrenheit(d(51.1), 0), "124\u{00B0}F");
    let step = f64::from_bits(SETPOINT_STEP_C);
    assert_eq!(step, 5.0 / 9.0);
    assert_eq!(fahrenheit(d(51.1 + step), 0), "125\u{00B0}F");
}

#[test]
fn the_design_size_is_laid_out_pixel_for_pixel() {
    let state = warm_state();
    let histories = histories_for(&state, 100);
    let (sheet, buttons) = screen().render(PANEL_SIZE, Page::Main, &state, &histories, 41);
    assert_eq!(
        sheet.items[0],
        Item::Fill { area: Area { x: 0, y: 0, width: 1424, height: 280 }, color: BACKGROUND }
    );
    assert_eq!(sheet.items[1], Item::Badger { x: 16, y: 5, height: 32 });
    assert_eq!(buttons[0].area, Area { x: 1298, y: 6, width: 110, height: 30 });
    assert_eq!(buttons[1].area, Area { x: 16, y: 166, width: 130, height: 102 });
    assert_eq!(buttons[2].area, Area { x: 160, y: 166, width: 130, height: 102 });
    // The wordmark stands behind the badger, which is 39 wide.
    match &sheet.items[2] {
        Item::Text { style, align, x, y, text } => {
            assert_eq!((style.face, *align, *x, *y), (Face::Wordmark, Align::Left, 63, 10));
            assert_eq!(style.px.bits, 22f32.to_bits());
            assert_eq!(text, "mujina");
        }
        other => panic!("{other:?}"),
    }
    let words = words(&sheet);
    for text in [
        "details \u{203A}",
        "AUTO",
        "SETPOINT",
        "124\u{00B0}F",
        "51.1 \u{00B0}C",
        "\u{2212}",
        "+",
        "104.0\u{00B0}F",
        "40.0 \u{00B0}C",
        "7.5 TH/s",
        "150 W",
        "60% asked, 60% held, capped by heat",
        "chip 62 \u{00B0}C",
        "3m",
    ] {
        assert!(words.iter().any(|w| w == text), "{text} in {words:?}");
    }
    let lines: Vec<Line> = sparks(&sheet).iter().map(|s| s.line).collect();
    assert_eq!(lines, [Line::Bath, Line::Inlet, Line::Outlet, Line::Hashrate, Line::Power]);
}

#[test]
fn the_share_bar_shows_what_is_held_and_asked() {
    let mut state = warm_state();
    state.power_fraction = Some(d(0.25));
    let (sheet, _) =
        screen().render(PANEL_SIZE, Page::Main, &state, &Histories::default(), 41);
    let fills: Vec<(Area, [u8; 3])> = sheet
        .items
        .iter()
        .filter_map(|i| match i {
            Item::Fill { area, color } => Some((*area, *color)),
            _ => None,
        })
        .collect();
    // The miner's column is 378 wide, from 1030.
    assert_eq!(fills[1].0, Area { x: 1030, y: 212, width: 378, height: 12 });
    let held = (378.0f64 * 0.6) as i32;
    assert_eq!(fills[2], (Area { x: 1030, y: 212, width: held, height: 12 }, ACCENT));
    let mark = 1030 + (378.0f64 * 0.25) as i32 - 1;
    assert_eq!(fills[3], (Area { x: mark, y: 209, width: 3, height: 18 }, TEXT));
}

#[test]
fn a_fault_is_named_left_of_the_mode() {
    let mut state = State::new(d(51.1), &["bath"]);
    state.mode = Mode::Manual;
    let (sheet, _) = screen().render(PANEL_SIZE, Page::Main, &state, &Histories::default(), 60);
    let mut seen = Vec::new();
    for item in &sheet.items {
        if let Item::Text { style, align: Align::Right, x, text, .. } = item {
            seen.push((text.clone(), *x, style.color));
        }
    }
    assert_eq!(seen[0], ("MANUAL".to_string(), 1278, ACCENT));
    assert_eq!(seen[1], ("no bath reading".to_string(), 1278 - (60 + 16), ACCENT));
    assert!(sparks(&sheet).is_empty());
    let words = words(&sheet);
    assert!(words.iter().any(|w| w == "share unknown"));
    assert!(words.iter().any(|w| w == "chip --"));
}

#[test]
fn an_empty_boards_page_says_why() {
    let mut state = State::new(d(51.1), &["bath"]);
    let (sheet, _) = screen().render(PANEL_SIZE, Page::Boards, &state, &Histories::default(), 41);
    assert!(words(&sheet).iter().any(|w| w == "miner offline"));
    state.miner.online = true;
    let (sheet, _) = screen().render(PANEL_SIZE, Page::Boards, &state, &Histories::default(), 41);
    assert!(words(&sheet).iter().any(|w| w == "the miner reports no boards"));
}

#[test]
fn the_details_are_under_the_boards() {
    let mut state = warm_state();
    state.probes[0].volts = Some(d(1.6504));
    state.supply_v = Some(d(3.3));
    state.miner.pool = Some("pool.example:3333".into());
    state.miner.difficulty = Some(d(2048.0));
    state.miner.shares_submitted = Some(17);
    state.miner.uptime_secs = Some(7265);
    let (sheet, _) = screen().render(PANEL_SIZE, Page::Boards, &state, &Histories::default(), 41);
    let words = words(&sheet);
    for text in [
        "pool pool.example:3333, difficulty 2048, shares 17, up 121 min",
        "bath 1.650 V, inlet -- V, outlet -- V, supply 3.300 V, AUTO, request 60%, no fault",
        "312",
    ] {
        assert!(words.iter().any(|w| w == text), "{text} in {words:?}");
    }
    let red = sheet.items.iter().any(|i| match i {
        Item::Text { style, text, .. } => style.color == ACCENT && text == "--",
        _ => false,
    });
    assert!(red, "the chip with errors");
}

#[test]
fn a_sparkline_labels_its_latest_value_and_its_reference() {
    let state = warm_state();
    let histories = histories_for(&state, 20);
    let (sheet, _) = screen().render(PANEL_SIZE, Page::Main, &state, &histories, 41);
    let bath = sparks(&sheet)[0].clone();
    assert_eq!(bath.area, Area { x: 320, y: 136, width: 220, height: 132 });
    assert_eq!(bath.last, d(30.0 + 19.0 * 0.1));
    assert_eq!(bath.plot_width.bits, 172f32.to_bits());
    assert_eq!(bath.reference.as_ref().unwrap().0, d(51.1));
    assert!(words(&sheet).iter().any(|w| w == "40s"));
    let c = Canvas::new(PANEL_SIZE);
    let apart = bath.labels(&c, 200, 150);
    assert_eq!(words(&apart), ["89.4\u{00B0}F", "124.0\u{00B0}F"]);
    match &apart.items[0] {
        Item::Text { x, y, .. } => assert_eq!((*x, *y), (320 + 172 + 6, 200 - 6)),
        other => panic!("{other:?}"),
    }
    assert_eq!(words(&bath.labels(&c, 200, 190)).len(), 1);
}

#[test]
fn lengths_scale_with_the_height() {
    for height in [100u32, 280, 400, 480, 1080] {
        let c = Canvas::new(Size { width: 100, height });
        let scale = height as f32 / 280.0;
        assert_eq!(c.scale, Single { bits: scale.to_bits() });
        for design in [1u16, 3, 16, 46, 120, 1310] {
            let want = (design as f32 * scale).round() as i32;
            assert_eq!(c.scaled(design), want as i128, "{design} at {height}");
        }
    }
}

#[test]
fn a_point_is_in_an_area_up_to_its_far_edges() {
    let a = Area { x: 10, y: 20, width: 5, height: 4 };
    assert!(a.contains(10, 20) && a.contains(14, 23));
    assert!(!a.contains(15, 20) && !a.contains(10, 24) && !a.contains(9, 20));
    let far = Area { x: i32::MAX, y: 0, width: 10, height: 1 };
    assert!(far.contains(i32::MAX, 0));
}

#[test]
fn a_tap_flips_the_page_or_moves_the_setpoint() {
    let area = Area { x: 0, y: 0, width: 10, height: 10 };
    let on = |action| vec![Button { area, action }];
    let step = 5.0 / 9.0;
    let (page, none) = tapped(Page::Main, &on(Action::TogglePage), 5, 5, d(50.0));
    assert_eq!(page, Page::Boards);
    assert!(none.is_none());
    for (action, want) in [(Action::SetpointUp, 50.0 + step), (Action::SetpointDown, 50.0 - step)] {
        let (page, command) = tapped(Page::Main, &on(action), 5, 5, d(50.0));
        assert_eq!(page, Page::Main);
        match command {
            Some(Command::SetSetpoint { celsius }) => assert_eq!(celsius, d(want)),
            other => panic!("{other:?}"),
        }
    }
    assert!(tapped(Page::Main, &on(Action::TogglePage), 50, 5, d(50.0)).1.is_none());
    assert_eq!(Page::default(), Page::Main);
}
