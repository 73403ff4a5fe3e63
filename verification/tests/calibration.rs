use coinbath::calibration::{
    fit, Fit, FitError, Gathering, Missing, Point, Points, Sample, Terms,
};
use coinbath::double::Double;
use coinbath::state::State;
use coinbath::thermistor::Thermistor;

fn d(x: f64) -> Double {
    Double { bits: x.to_bits() }
}

fn f(x: Double) -> f64 {
    f64::from_bits(x.bits)
}

const R_FIXED: f64 = 10_000.0;

/// A known thermistor to synthesize points from.
fn truth() -> Thermistor {
    Thermistor {
        divider_resistor: d(R_FIXED),
        a: d(1.125e-3),
        b: d(2.347e-4),
        c: d(8.566e-8),
    }
}

fn resistance_to_celsius(th: &Thermistor, ohms: f64) -> f64 {
    f(th.resistance_to_celsius(d(ohms.ln())))
}

/// The divider voltage the thermistor gives at `celsius`, found by
/// bisection on resistance.
fn volts_at(th: &Thermistor, celsius: f64, supply: f64) -> f64 {
    let (mut lo, mut hi): (f64, f64) = (100.0, 1_000_000.0);
    for _ in 0..200 {
        let mid = (lo * hi).sqrt();
        if resistance_to_celsius(th, mid) > celsius {
            lo = mid;
        } else {
            hi = mid;
        }
    }
    let ohms = (lo * hi).sqrt();
    supply * R_FIXED / (ohms + R_FIXED)
}

fn points(th: &Thermistor, temps: &[f64]) -> Points {
    Points {
        points: temps
            .iter()
            .enumerate()
            .map(|(i, &c)| Point {
                label: format!("p{i}"),
                reference_c: d(c),
                taken: 0,
                samples: vec![Sample {
                    probe: "bath".into(),
                    volts: d(volts_at(th, c, 3.28)),
                    supply_v: d(3.28),
                    spread_v: d(0.0),
                }],
            })
            .collect(),
    }
}

/// Fits a probe, with the logarithms of its resistances.
fn fit_probe(points: &Points, probe: &str, terms: Terms) -> Result<Fit, FitError> {
    let logs: Vec<Double> = points
        .rows(probe, d(R_FIXED))
        .iter()
        .map(|row| d(f(row.ohms).ln()))
        .collect();
    fit(points, probe, d(R_FIXED), terms, &logs)
}

#[test]
fn three_points_recover_the_coefficients() {
    let fit = fit_probe(&points(&truth(), &[0.0, 40.0, 80.0]), "bath", Terms::Three).unwrap();
    let t = fit.thermistor;
    assert!((f(t.a) - 1.125e-3).abs() < 1e-8, "a = {}", f(t.a));
    assert!((f(t.b) - 2.347e-4).abs() < 1e-8, "b = {}", f(t.b));
    assert!((f(t.c) - 8.566e-8).abs() < 1e-10, "c = {}", f(t.c));
    assert!(fit.residuals.iter().all(|r| f(r.miss_c).abs() < 1e-6));
}

#[test]
fn two_points_hit_both_and_stay_close_between() {
    let fit = fit_probe(&points(&truth(), &[0.0, 50.0]), "bath", Terms::Two).unwrap();
    assert!(fit.residuals.iter().all(|r| f(r.miss_c).abs() < 1e-6));
    assert_eq!(f(fit.thermistor.c), 0.0);
    // The B model misses a real thermistor between the points, but by
    // well under a degree over this span.
    let v = volts_at(&truth(), 25.0, 3.28);
    let ohms = f(fit.thermistor.resistance(d(v), d(3.28)));
    let at_25 = resistance_to_celsius(&fit.thermistor, ohms);
    assert!((at_25 - 25.0).abs() < 0.5, "{at_25}");
}

#[test]
fn one_point_is_refused() {
    assert!(fit_probe(&points(&truth(), &[20.0]), "bath", Terms::Two).is_err());
    assert!(fit_probe(&points(&truth(), &[0.0, 50.0]), "inlet", Terms::Two).is_err());
    assert!(fit_probe(&points(&truth(), &[0.0, 50.0]), "bath", Terms::Three).is_err());
}

#[test]
fn two_terms_average_rounded_points() {
    // Three points over a narrow span, each reference rounded to a
    // whole degree Fahrenheit as a kitchen thermometer reads. Two terms
    // spread the rounding across the points and stay physical; the
    // residuals are bounded by it.
    let round_f = |c: f64| ((c * 9.0 / 5.0 + 32.0).round() - 32.0) * 5.0 / 9.0;
    let mut p = points(&truth(), &[30.3, 41.4, 48.7]);
    for point in &mut p.points {
        point.reference_c = d(round_f(f(point.reference_c)));
    }
    let fit = fit_probe(&p, "bath", Terms::Two).unwrap();
    assert!(f(fit.thermistor.a) > 0.0 && f(fit.thermistor.b) > 0.0);
    assert!(
        fit.residuals.iter().all(|r| f(r.miss_c).abs() < 0.3),
        "{:?}",
        fit.residuals
    );
    assert_eq!(Terms::for_points(3), Terms::Two);
    assert_eq!(Terms::for_points(4), Terms::Three);
}

#[test]
fn a_fit_says_why_it_is_refused() {
    let one = points(&truth(), &[20.0]);
    let e = fit_probe(&one, "bath", Terms::Two).unwrap_err();
    assert_eq!(e, FitError::TooFew(1));
    assert_eq!(e.to_text("bath"), "probe bath has 1 points; two or more are needed");
    let two = points(&truth(), &[0.0, 50.0]);
    let e = fit_probe(&two, "bath", Terms::Three).unwrap_err();
    assert_eq!(e.to_text("bath"), "probe bath has 2 points; three coefficients need 3");
    let same = points(&truth(), &[20.0, 20.0]);
    let e = fit_probe(&same, "bath", Terms::Two).unwrap_err();
    assert_eq!(e, FitError::Undetermined);
    assert_eq!(e.to_text("bath"), "points do not determine the coefficients");
    let flat = points(&truth(), &[20.0, 20.0, 20.0]);
    assert_eq!(fit_probe(&flat, "bath", Terms::Three).unwrap_err(), FitError::Undetermined);
}

/// Least squares by Gaussian elimination on machine doubles.
fn plain_curve(rows: &[(f64, f64)]) -> [f64; 3] {
    let mut m = [[0.0f64; 3]; 3];
    let mut v = [0.0f64; 3];
    for &(celsius, ohms) in rows {
        let x = ohms.ln();
        let y = 1.0 / (celsius + 273.15);
        let basis = [1.0, x, x.powi(3)];
        for i in 0..3 {
            v[i] += basis[i] * y;
            for j in 0..3 {
                m[i][j] += basis[i] * basis[j];
            }
        }
    }
    for col in 0..3 {
        let pivot = (col..3)
            .max_by(|&i, &j| m[i][col].abs().total_cmp(&m[j][col].abs()))
            .unwrap();
        m.swap(col, pivot);
        v.swap(col, pivot);
        for row in 0..3 {
            if row != col {
                let factor = m[row][col] / m[col][col];
                let pivot_row = m[col];
                for k in col..3 {
                    m[row][k] -= factor * pivot_row[k];
                }
                v[row] -= factor * v[col];
            }
        }
    }
    [v[0] / m[0][0], v[1] / m[1][1], v[2] / m[2][2]]
}

#[test]
fn four_points_fit_to_the_last_bit() {
    let p = points(&truth(), &[1.0, 22.5, 47.0, 81.0]);
    let rows: Vec<(f64, f64)> = p
        .rows("bath", d(R_FIXED))
        .iter()
        .map(|r| (f(r.reference_c), f(r.ohms)))
        .collect();
    let want = plain_curve(&rows);
    let t = fit_probe(&p, "bath", Terms::Three).unwrap().thermistor;
    assert_eq!([f(t.a), f(t.b), f(t.c)], want);
}

#[test]
fn names_are_sorted_and_listed_once() {
    let mut p = points(&truth(), &[0.0, 50.0]);
    for name in ["outlet", "inlet", "bath"] {
        p.points[0].samples.push(Sample {
            probe: name.into(),
            volts: d(1.0),
            supply_v: d(3.3),
            spread_v: d(0.0),
        });
    }
    assert_eq!(p.names(), ["bath", "inlet", "outlet"]);
    assert_eq!(p.count("bath"), 2);
    assert_eq!(p.count("inlet"), 1);
    assert_eq!(p.count("chip"), 0);
    assert_eq!(p.rows("bath", d(R_FIXED)).len(), 2);
    assert!(Points::default().names().is_empty());
}

#[test]
fn terms_are_chosen_or_refused() {
    assert_eq!(Terms::chosen(Some(2), 9), Ok(Terms::Two));
    assert_eq!(Terms::chosen(Some(3), 1), Ok(Terms::Three));
    assert_eq!(Terms::chosen(Some(4), 1), Err(4));
    assert_eq!(Terms::chosen(None, 3), Ok(Terms::Two));
    assert_eq!(Terms::chosen(None, 4), Ok(Terms::Three));
}

fn snapshot(bath: Option<f64>, inlet: Option<f64>, supply: Option<f64>) -> State {
    let mut state = State::new(d(50.0), &["bath", "inlet"]);
    state.probes[0].volts = bath.map(d);
    state.probes[1].volts = inlet.map(d);
    state.supply_v = supply.map(d);
    state
}

#[test]
fn a_point_averages_what_was_gathered() {
    let mut g = Gathering::new();
    let all: Vec<String> = Vec::new();
    g.take(&snapshot(Some(1.1), Some(1.3), Some(3.28)), &all).unwrap();
    g.take(&snapshot(Some(1.2), Some(1.3), Some(3.30)), &all).unwrap();
    g.take(&snapshot(Some(1.4), Some(1.2), Some(3.29)), &all).unwrap();
    let p = g.finish(d(40.0), "warm".into(), 7).unwrap();
    assert_eq!((p.label.as_str(), f(p.reference_c), p.taken), ("warm", 40.0, 7));
    assert_eq!(p.samples.len(), 2);
    let mean = |vs: &[f64]| vs.iter().sum::<f64>() / vs.len() as f64;
    assert_eq!(p.samples[0].probe, "bath");
    assert_eq!(f(p.samples[0].volts), mean(&[1.1, 1.2, 1.4]));
    assert_eq!(f(p.samples[0].supply_v), mean(&[3.28, 3.30, 3.29]));
    assert_eq!(f(p.samples[0].spread_v), 1.4 - 1.1);
    assert_eq!(f(p.samples[1].volts), mean(&[1.3, 1.3, 1.2]));
}

#[test]
fn only_the_chosen_probes_are_gathered() {
    let mut g = Gathering::new();
    let chosen = vec!["inlet".to_string()];
    g.take(&snapshot(None, Some(1.3), Some(3.28)), &chosen).unwrap();
    let p = g.finish(d(40.0), "warm".into(), 0).unwrap();
    assert_eq!(p.samples.len(), 1);
    assert_eq!(p.samples[0].probe, "inlet");
    let mut none = Gathering::new();
    none.take(&snapshot(Some(1.0), Some(1.3), Some(3.28)), &vec!["chip".to_string()]).unwrap();
    assert!(none.finish(d(40.0), "warm".into(), 0).is_none());
}

#[test]
fn a_snapshot_without_volts_stops_the_gathering() {
    let mut g = Gathering::new();
    let all: Vec<String> = Vec::new();
    assert_eq!(g.take(&snapshot(Some(1.0), Some(1.0), None), &all), Err(Missing::Supply));
    assert_eq!(g.take(&snapshot(Some(1.0), None, Some(3.3)), &all), Err(Missing::Volts(1)));
    assert_eq!(g, Gathering::new());
}

#[test]
fn a_fit_misses_by_the_least_squares() {
    let mut p = points(&truth(), &[5.0, 20.0, 35.0, 50.0, 65.0]);
    for (point, off) in p.points.iter_mut().zip([0.3, -0.2, 0.4, -0.5, 0.1]) {
        point.reference_c = d(f(point.reference_c) + off);
    }
    let rows: Vec<(f64, f64)> = p
        .rows("bath", d(R_FIXED))
        .iter()
        .map(|row| (f(row.ohms).ln(), 1.0 / (f(row.reference_c) + 273.15)))
        .collect();
    let missed = |a: f64, b: f64, c: f64| -> f64 {
        rows.iter().map(|(x, y)| (y - (a + b * x + c * x.powi(3))).powi(2)).sum()
    };
    let line = fit_probe(&p, "bath", Terms::Two).unwrap().thermistor;
    let (a, b) = (f(line.a), f(line.b));
    let least = missed(a, b, 0.0);
    for (da, db) in [(1e-6, 0.0), (-1e-6, 0.0), (0.0, 1e-7), (0.0, -1e-7), (9e-7, -1e-7)] {
        assert!(missed(a + da, b + db, 0.0) > least);
    }
    let curve = fit_probe(&p, "bath", Terms::Three).unwrap().thermistor;
    let (a, b, c) = (f(curve.a), f(curve.b), f(curve.c));
    assert!(missed(a, b, c) < least);
    for (da, db, dc) in [(1e-6, 0.0, 0.0), (0.0, -1e-7, 0.0), (0.0, 0.0, 1e-9)] {
        assert!(missed(a + da, b + db, c + dc) > missed(a, b, c));
    }
}
