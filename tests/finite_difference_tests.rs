use category_fit::finite_difference::forward_difference_jacobian;
use category_fit::layout::{FitLayout, JacobianEntry};

struct Obs {
    x: Vec<f64>,
    y: Vec<f64>,
    z: Vec<String>,
    f: Vec<f64>,
}

fn sample() -> Obs {
    Obs {
        x: vec![2.0, 3.0, 4.0, 5.0, 6.0, 7.0],
        y: vec![3.0, 5.0, 8.0, 1.0, 2.0, 9.0],
        z: ["A", "B", "C", "A", "B", "C"].iter().map(|s| s.to_string()).collect(),
        f: vec![14.0, 50.0, 14.5, 19.0, 30.0, 17.0],
    }
}

fn residuals(layout: &FitLayout, o: &Obs, p: &Vec<f64>) -> Option<Vec<f64>> {
    if layout.check_params(p.len()).is_err() {
        return None;
    }
    let mut r = Vec::new();
    for i in 0..layout.observation_count() {
        let m = layout.row_slot(i).map(|s| p[s]).unwrap_or(1.0);
        r.push(o.f[i] - (p[0] * o.x[i] + p[1] * o.y[i] + p[2]) * m);
    }
    Some(r)
}

fn analytic(layout: &FitLayout, o: &Obs, p: &Vec<f64>) -> Vec<Vec<f64>> {
    let mut rows = Vec::new();
    for i in 0..layout.observation_count() {
        let m = layout.row_slot(i).map(|s| p[s]).unwrap_or(1.0);
        let mut row = Vec::new();
        for col in 0..layout.param_count() {
            row.push(match layout.jacobian_entry(i, col) {
                JacobianEntry::NegXTimesMultiplier => -o.x[i] * m,
                JacobianEntry::NegYTimesMultiplier => -o.y[i] * m,
                JacobianEntry::NegMultiplier => -m,
                JacobianEntry::NegLinearPart => -(p[0] * o.x[i] + p[1] * o.y[i] + p[2]),
                JacobianEntry::Zero => 0.0,
            });
        }
        rows.push(row);
    }
    rows
}

fn numeric(layout: &FitLayout, o: &Obs, p: &Vec<f64>, h: f64) -> Option<Vec<Vec<f64>>> {
    let res = |q: &Vec<f64>| residuals(layout, o, q);
    forward_difference_jacobian(p, &res, &|v: f64| v + h, &|a: f64, b: f64| (a - b) / h)
}

#[test]
fn analytic_jacobian_matches_finite_differences() {
    let o = sample();
    let layout = FitLayout::new(6, 6, Some(o.z.as_slice()), 6).unwrap();
    let points = [
        vec![1.0, 1.0, 1.0, 1.0, 1.0, 1.0],
        vec![2.0, 3.0, 1.0, 1.0, 2.0, 0.5],
        vec![-0.7, 4.2, 3.3, 0.1, -1.5, 2.25],
        vec![10.0, -2.0, 0.25, 3.0, 0.75, 1.125],
    ];
    for p in points.iter() {
        let exact = analytic(&layout, &o, p);
        let cols = numeric(&layout, &o, p, 1e-6).unwrap();
        assert_eq!(cols.len(), layout.param_count());
        for (j, col) in cols.iter().enumerate() {
            assert_eq!(col.len(), layout.observation_count());
            for (i, v) in col.iter().enumerate() {
                let e = exact[i][j];
                assert!((v - e).abs() <= 1e-4 * e.abs().max(1.0), "row {} col {}: {} vs {}", i, j, v, e);
            }
        }
    }
}

#[test]
fn forward_difference_of_known_function() {
    // r(p) = [p0 * p1, p0 + 3 p1]: exact slopes on a linear residual
    let res = |q: &Vec<f64>| Some(vec![q[0] * 2.0 - q[1], q[0] + 3.0 * q[1]]);
    let h = 0.5;
    let cols =
        forward_difference_jacobian(&vec![1.0, 4.0], &res, &|v: f64| v + h, &|a: f64, b: f64| (a - b) / h)
            .unwrap();
    assert_eq!(cols, vec![vec![2.0, 1.0], vec![-1.0, 3.0]]);
}

#[test]
fn forward_difference_with_no_parameters() {
    let res = |_q: &Vec<f64>| Some(vec![1.0, 2.0]);
    let cols = forward_difference_jacobian(&Vec::<f64>::new(), &res, &|v: f64| v + 1.0, &|a: f64, b: f64| a - b)
        .unwrap();
    assert!(cols.is_empty());
}

#[test]
fn failing_baseline_fails_the_jacobian() {
    let res = |_q: &Vec<f64>| None::<Vec<f64>>;
    let r = forward_difference_jacobian(&vec![1.0, 2.0], &res, &|v: f64| v + 1e-6, &|a: f64, b: f64| a - b);
    assert!(r.is_none());
}

#[test]
fn failing_perturbed_call_fails_the_jacobian() {
    // fails once the second parameter leaves 2.0
    let res = |q: &Vec<f64>| if q[1] == 2.0 { Some(vec![q[0], q[1]]) } else { None };
    let r = forward_difference_jacobian(&vec![1.0, 2.0], &res, &|v: f64| v + 1e-3, &|a: f64, b: f64| a - b);
    assert!(r.is_none());
}

#[test]
fn changed_residual_length_fails_the_jacobian() {
    let res = |q: &Vec<f64>| if q[0] == 1.0 { Some(vec![q[0]]) } else { Some(vec![q[0], q[1]]) };
    let r = forward_difference_jacobian(&vec![1.0, 2.0], &res, &|v: f64| v + 1e-3, &|a: f64, b: f64| a - b);
    assert!(r.is_none());
}

#[test]
fn step_size_error_is_smallest_near_the_default_steps() {
    // d/dp exp(p) at p = 1 is e
    let res = |q: &Vec<f64>| Some(vec![q[0].exp()]);
    let exact = 1.0_f64.exp();
    let err = |h: f64| {
        let cols =
            forward_difference_jacobian(&vec![1.0], &res, &|v: f64| v + h, &|a: f64, b: f64| (a - b) / h).unwrap();
        (cols[0][0] - exact).abs()
    };
    let steps = [1e-1, 1e-3, 1e-7, 1e-11, 1e-14];
    let errors: Vec<f64> = steps.iter().map(|h| err(*h)).collect();
    assert!(errors[0] > errors[1]);
    assert!(errors[1] > errors[2]);
    assert!(errors[2] < errors[3]);
    assert!(errors[3] < errors[4]);
    assert!(errors[2] < 1e-6);
}
