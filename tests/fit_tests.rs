use category_fit::encoder::CONTINUOUS_COEFFICIENTS;
use category_fit::layout::{FitLayout, JacobianEntry};
use levenberg_marquardt::{LeastSquaresProblem, LevenbergMarquardt};
use nalgebra::{DMatrix, DVector, Dyn, Owned};

struct CategoricalFit {
    layout: FitLayout,
    x: Vec<f64>,
    y: Vec<f64>,
    f: Vec<f64>,
    params: DVector<f64>,
}

impl CategoricalFit {
    fn multiplier(&self, p: &DVector<f64>, row: usize) -> f64 {
        self.layout.row_slot(row).map(|s| p[s]).unwrap_or(1.0)
    }
}

impl LeastSquaresProblem<f64, Dyn, Dyn> for CategoricalFit {
    type ResidualStorage = Owned<f64, Dyn>;
    type JacobianStorage = Owned<f64, Dyn, Dyn>;
    type ParameterStorage = Owned<f64, Dyn>;

    fn set_params(&mut self, p: &DVector<f64>) {
        self.params = p.clone();
    }

    fn params(&self) -> DVector<f64> {
        self.params.clone()
    }

    fn residuals(&self) -> Option<DVector<f64>> {
        let p = &self.params;
        let n = self.layout.observation_count();
        Some(DVector::from_fn(n, |i, _| {
            self.f[i] - (p[0] * self.x[i] + p[1] * self.y[i] + p[2]) * self.multiplier(p, i)
        }))
    }

    fn jacobian(&self) -> Option<DMatrix<f64>> {
        let p = &self.params;
        let n = self.layout.observation_count();
        Some(DMatrix::from_fn(n, self.layout.param_count(), |i, j| {
            let m = self.multiplier(p, i);
            match self.layout.jacobian_entry(i, j) {
                JacobianEntry::NegXTimesMultiplier => -self.x[i] * m,
                JacobianEntry::NegYTimesMultiplier => -self.y[i] * m,
                JacobianEntry::NegMultiplier => -m,
                JacobianEntry::NegLinearPart => -(p[0] * self.x[i] + p[1] * self.y[i] + p[2]),
                JacobianEntry::Zero => 0.0,
            }
        }))
    }
}

fn normalized(layout: &FitLayout, p: &DVector<f64>) -> DVector<f64> {
    let mut min = f64::INFINITY;
    for s in CONTINUOUS_COEFFICIENTS..layout.param_count() {
        min = min.min(p[s]);
    }
    let mut q = p.clone();
    for s in 0..layout.param_count() {
        if s < CONTINUOUS_COEFFICIENTS {
            q[s] = p[s] * min;
        } else {
            q[s] = p[s] / min;
        }
    }
    q
}

#[test]
fn fit_recovers_three_category_model() {
    let (a, b, c) = (2.0, 3.0, 1.0);
    let mult = |z: &str| match z {
        "A" => 1.0,
        "B" => 2.0,
        _ => 0.5,
    };
    let x = vec![2.0, 3.0, 4.0, 5.0, 6.0, 6.0, 7.0, 7.0, 8.0, 8.0, 9.0, 9.0];
    let y = vec![3.0, 5.0, 8.0, 1.0, 2.0, 6.0, 1.0, 9.0, 2.0, 0.0, 2.0, 16.0];
    let z: Vec<String> = ["A", "B", "C", "C", "A", "B", "B", "A", "C", "A", "C", "B"]
        .iter()
        .map(|s| s.to_string())
        .collect();
    let f: Vec<f64> = (0..x.len()).map(|i| (a * x[i] + b * y[i] + c) * mult(&z[i])).collect();
    let layout = FitLayout::new(x.len(), y.len(), Some(z.as_slice()), f.len()).unwrap();
    let n = layout.param_count();
    assert_eq!(n, 6);
    let problem = CategoricalFit { layout, x, y, f, params: DVector::from_element(n, 1.0) };
    let (solved, _report) = LevenbergMarquardt::new().minimize(problem);
    let ssr: f64 = solved.residuals().unwrap().iter().map(|r| r * r).sum();
    assert!(ssr < 1e-6, "ssr {}", ssr);
    let p = solved.params.clone();
    let slot_a = solved.layout.index().index_of("A").unwrap();
    let slot_b = solved.layout.index().index_of("B").unwrap();
    let slot_c = solved.layout.index().index_of("C").unwrap();
    assert_eq!((slot_a, slot_b, slot_c), (3, 4, 5));
    assert!((p[slot_b] / p[slot_a] - 2.0).abs() < 1e-3);
    assert!((p[slot_c] / p[slot_a] - 0.5).abs() < 1e-3);
    assert!((p[0] * p[slot_a] - a).abs() < 1e-3);
    assert!((p[1] * p[slot_a] - b).abs() < 1e-3);
    assert!((p[2] * p[slot_a] - c).abs() < 1e-3);

    // after normalization the smallest multiplier is one, predictions unchanged
    let q = normalized(&solved.layout, &p);
    assert!((q[slot_c] - 1.0).abs() < 1e-12);
    assert!((q[slot_a] - 2.0).abs() < 1e-3);
    assert!((q[slot_b] - 4.0).abs() < 1e-3);
    for i in 0..solved.layout.observation_count() {
        let before = (p[0] * solved.x[i] + p[1] * solved.y[i] + p[2]) * solved.multiplier(&p, i);
        let after = (q[0] * solved.x[i] + q[1] * solved.y[i] + q[2]) * solved.multiplier(&q, i);
        assert!((before - after).abs() < 1e-9 * before.abs().max(1.0));
    }
}
