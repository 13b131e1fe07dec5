use dense_nn::matrix::{Error, Matrix};
use dense_nn::network::{Network, NetworkBuilder};
use dense_nn::scalar::Scalar;
use dense_nn::util::{activation, activation_last, activation_prime};
use rand::rngs::StdRng;
use rand::{Rng, SeedableRng};

#[derive(Clone, Copy, PartialEq, Debug)]
struct F(f64);

impl Scalar for F {
    fn zero_spec() -> F {
        F(0.0)
    }

    fn one_spec() -> F {
        F(1.0)
    }

    fn add_spec(self, rhs: F) -> F {
        F(self.0 + rhs.0)
    }

    fn sub_spec(self, rhs: F) -> F {
        F(self.0 - rhs.0)
    }

    fn mul_spec(self, rhs: F) -> F {
        F(self.0 * rhs.0)
    }

    fn div_spec(self, rhs: F) -> F {
        F(self.0 / rhs.0)
    }

    fn neg_spec(self) -> F {
        F(-self.0)
    }

    fn exp_spec(self) -> F {
        F(f64::exp(self.0))
    }

    fn ln_spec(self) -> F {
        F(f64::ln(self.0))
    }

    fn is_pos_spec(self) -> bool {
        self.0 > 0.0
    }

    fn is_one_spec(self) -> bool {
        self.0 == 1.0
    }
    fn zero() -> F {
        F(0.0)
    }

    fn one() -> F {
        F(1.0)
    }

    fn add(self, rhs: F) -> F {
        F(self.0 + rhs.0)
    }

    fn sub(self, rhs: F) -> F {
        F(self.0 - rhs.0)
    }

    fn mul(self, rhs: F) -> F {
        F(self.0 * rhs.0)
    }

    fn div(self, rhs: F) -> F {
        F(self.0 / rhs.0)
    }

    fn neg(self) -> F {
        F(-self.0)
    }

    fn exp(self) -> F {
        F(f64::exp(self.0))
    }

    fn ln(self) -> F {
        F(f64::ln(self.0))
    }

    fn is_pos(self) -> bool {
        self.0 > 0.0
    }

    fn is_one(self) -> bool {
        self.0 == 1.0
    }
}

fn fv(v: Vec<f64>) -> Vec<F> {
    let mut out = Vec::new();
    for x in v {
        out.push(F(x));
    }
    out
}

fn raw(m: &Matrix<F>) -> Vec<f64> {
    let mut out = Vec::new();
    for x in &m.data {
        out.push(x.0);
    }
    out
}

fn random_matrix(rng: &mut StdRng, rows: usize, cols: usize) -> Matrix<F> {
    let mut data = Vec::new();
    for _ in 0..rows * cols {
        data.push(F(rng.gen_range(-1.0..=1.0)));
    }
    Matrix::from_vec(rows, cols, data)
}

fn random_params(rng: &mut StdRng, arch: &[usize]) -> (Vec<Matrix<F>>, Vec<Matrix<F>>) {
    let mut ws = Vec::new();
    let mut bs = Vec::new();
    for i in 1..arch.len() {
        ws.push(random_matrix(rng, arch[i], arch[i - 1]));
        bs.push(random_matrix(rng, arch[i], 1));
    }
    (ws, bs)
}

fn close(a: f64, b: f64, tol: f64) -> bool {
    (a - b).abs() <= tol
}

fn xor_like_samples() -> (Matrix<F>, Matrix<F>) {
    let rows = 7;
    let cols = 2;
    let data = fv(vec![0., 0., 1., 0., 0., 1., 1., 1., 1., 0., 0., 0., 1., 1.]);
    let xs = Matrix { rows, cols, data };
    let data = fv(vec![0., 1., 1., 0., 1., 0., 0., 1., 1., 0., 0., 1., 0., 1.]);
    let ys = Matrix { rows, cols, data };
    (xs, ys)
}

#[test]
fn test_nn() {
    let (xs, ys) = xor_like_samples();

    let mut rng = StdRng::seed_from_u64(12);
    let mut builder = NetworkBuilder::default();
    builder.add_layer(2).add_layer(12).add_layer(2);
    let (ws, bs) = random_params(&mut rng, &builder.nn_n);
    let mut nn: Network<F> = builder.build(ws, bs).unwrap();

    nn.fit(&xs, &ys, 1500, F(0.08)).unwrap();
    let out = nn.predict(xs.row(4).unwrap().t());
    for i in 0..out.rows {
        println!("{} ", out.get(i, 0).unwrap().0);
    }
}

#[test]
fn transpose_twice_restores_matrix() {
    let m = Matrix::from_vec(2, 3, fv(vec![1.5, -2.0, 0.0, 4.25, 5.0, -6.5]));
    let tt = m.t().t();
    assert_eq!(tt.rows, m.rows);
    assert_eq!(tt.cols, m.cols);
    assert_eq!(tt.data, m.data);
}

#[test]
fn add_then_sub_restores_matrix() {
    let a = Matrix::from_vec(2, 2, fv(vec![0.1, -2.75, 31.0, 0.003]));
    let b = Matrix::from_vec(2, 2, fv(vec![5.5, 0.25, -7.0, 1.125]));
    let s = a.add_mat(&b).unwrap();
    let r = s.sub_mat(&b).unwrap();
    for k in 0..4 {
        assert!(close(r.data[k].0, a.data[k].0, 1e-12));
    }
}

#[test]
fn scale_then_divide_restores_matrix() {
    let a = Matrix::from_vec(1, 3, fv(vec![0.5, -3.25, 11.0]));
    let c = F(2.4);
    let r = a.mul_scalar(c).div_scalar(c);
    for k in 0..3 {
        assert!(close(r.data[k].0, a.data[k].0, 1e-12));
    }
}

#[test]
fn dot_rejects_incompatible_shapes() {
    let a: Matrix<F> = Matrix::new(2, 3);
    let b: Matrix<F> = Matrix::new(2, 3);
    assert_eq!(a.dot(&b).unwrap_err(), Error::ShapeMismatch);
    let c: Matrix<F> = Matrix::new(4, 4);
    assert_eq!(a.dot(&c).unwrap_err(), Error::ShapeMismatch);
    let d: Matrix<F> = Matrix::new(1, 2);
    assert_eq!(a.dot(&d).unwrap_err(), Error::ShapeMismatch);
}

fn identity(n: usize) -> Matrix<F> {
    let mut m = Matrix::new(n, n);
    for i in 0..n {
        m.set(i, i, F(1.0)).unwrap();
    }
    m
}

#[test]
fn dot_with_identity_preserves_matrix() {
    let a = Matrix::from_vec(2, 3, fv(vec![1.0, -2.5, 3.0, 0.25, 5.0, -6.0]));
    let r = a.dot(&identity(3)).unwrap();
    assert_eq!(r.rows, 2);
    assert_eq!(r.cols, 3);
    for k in 0..6 {
        assert!(close(r.data[k].0, a.data[k].0, 1e-12));
    }
}

#[test]
fn dot_has_exact_product_values() {
    let a = Matrix::from_vec(2, 2, fv(vec![1.0, 2.0, 3.0, 4.0]));
    let b = Matrix::from_vec(2, 2, fv(vec![5.0, 6.0, 7.0, 8.0]));
    let r = a.dot(&b).unwrap();
    assert_eq!(raw(&r), vec![19.0, 22.0, 43.0, 50.0]);
}

#[test]
fn predict_returns_probability_distribution() {
    let mut rng = StdRng::seed_from_u64(3);
    let arch = vec![3, 5, 4];
    let (ws, bs) = random_params(&mut rng, &arch);
    let mut nn: Network<F> = Network::new(&arch, ws, bs);
    let x = Matrix::from_vec(3, 1, fv(vec![0.3, -0.8, 0.5]));
    let out = nn.predict(x);
    let mut total = 0.0;
    for k in 0..out.data.len() {
        assert!(out.data[k].0 >= 0.0 && out.data[k].0 <= 1.0);
        total += out.data[k].0;
    }
    assert!(close(total, 1.0, 1e-9));
}

#[test]
fn predict_is_repeatable() {
    let mut rng = StdRng::seed_from_u64(4);
    let arch = vec![2, 6, 2];
    let (ws, bs) = random_params(&mut rng, &arch);
    let mut nn: Network<F> = Network::new(&arch, ws, bs);
    let first = nn.predict(Matrix::from_vec(2, 1, fv(vec![0.9, -0.1])));
    let second = nn.predict(Matrix::from_vec(2, 1, fv(vec![0.9, -0.1])));
    assert_eq!(first.data, second.data);
}

#[test]
fn error_without_hot_entry_is_class_not_found() {
    let mut rng = StdRng::seed_from_u64(5);
    let arch = vec![2, 3, 2];
    let (ws, bs) = random_params(&mut rng, &arch);
    let mut nn: Network<F> = Network::new(&arch, ws, bs);
    nn.predict(Matrix::from_vec(2, 1, fv(vec![1.0, 0.0])));
    let y = Matrix::from_vec(2, 1, fv(vec![0.0, 0.0]));
    assert_eq!(nn.error(&y).unwrap_err(), Error::ClassNotFound);
}

#[test]
fn fit_without_hot_targets_is_class_not_found() {
    let mut rng = StdRng::seed_from_u64(6);
    let arch = vec![2, 3, 2];
    let (ws, bs) = random_params(&mut rng, &arch);
    let mut nn: Network<F> = Network::new(&arch, ws, bs);
    let xs = Matrix::from_vec(2, 2, fv(vec![1.0, 0.0, 0.0, 1.0]));
    let ys: Matrix<F> = Matrix::new(2, 2);
    assert_eq!(nn.fit(&xs, &ys, 3, F(0.1)).unwrap_err(), Error::ClassNotFound);
}

#[test]
fn builder_modes_exclude_each_other() {
    let mut layered = NetworkBuilder::default();
    layered.add_layer(2).add_layer(3);
    layered.architecture(&vec![9, 9, 9]);
    assert_eq!(layered.nn_n, vec![2, 3]);
    assert_eq!(layered.nn_l, 2);
    assert!(!layered.architecture_flag);

    let mut whole = NetworkBuilder::default();
    whole.architecture(&vec![4, 5, 6]);
    whole.add_layer(7);
    assert_eq!(whole.nn_n, vec![4, 5, 6]);
    assert_eq!(whole.nn_l, 2);
    assert!(!whole.layer_flag);
}

#[test]
fn build_rejects_inconsistent_declarations() {
    let empty = NetworkBuilder::default();
    let r: Result<Network<F>, Error> = empty.build(Vec::new(), Vec::new());
    assert_eq!(r.unwrap_err(), Error::TopologyMismatch);

    let mut one = NetworkBuilder::default();
    one.add_layer(3);
    let r: Result<Network<F>, Error> = one.build(Vec::new(), Vec::new());
    assert_eq!(r.unwrap_err(), Error::TopologyMismatch);

    let mut rng = StdRng::seed_from_u64(8);
    let mut b = NetworkBuilder::default();
    b.add_layer(2).add_layer(3);
    let w = random_matrix(&mut rng, 4, 4);
    let bias = random_matrix(&mut rng, 3, 1);
    let r = b.build(vec![w], vec![bias]);
    assert_eq!(r.unwrap_err(), Error::TopologyMismatch);
}

#[test]
fn forward_identity_weights_gives_softmax_of_input() {
    let arch = vec![2, 2];
    let ws = vec![identity(2)];
    let bs = vec![Matrix::new(2, 1)];
    let mut nn: Network<F> = Network::new(&arch, ws, bs);
    let out = nn.predict(Matrix::from_vec(2, 1, fv(vec![1.0, 0.0])));
    assert!(close(out.data[0].0, 0.7311, 1e-3));
    assert!(close(out.data[1].0, 0.2689, 1e-3));
}

#[test]
fn softmax_of_equal_entries_is_uniform() {
    let z: Matrix<F> = Matrix::new(2, 1);
    let s = activation_last(&z);
    assert!(close(s.data[0].0, 0.5, 1e-12));
    assert!(close(s.data[1].0, 0.5, 1e-12));
}

#[test]
fn rectifier_and_derivative_have_expected_values() {
    let m = Matrix::from_vec(1, 4, fv(vec![-1.5, 0.0, 2.5, -0.25]));
    let a = activation(&m);
    assert_eq!(raw(&a), vec![0.0, 0.0, 2.5, 0.0]);
    let p = activation_prime(&m);
    assert_eq!(raw(&p), vec![0.0, 0.0, 1.0, 0.0]);
}

fn sample_loss(nn: &mut Network<F>, x: Matrix<F>, y: &Matrix<F>) -> f64 {
    nn.predict(x);
    nn.error(y).unwrap();
    nn.error.0
}

#[test]
fn training_fits_the_samples() {
    let (xs, ys) = xor_like_samples();
    let arch = vec![2, 12, 2];
    let mut rng = StdRng::seed_from_u64(42);
    let (ws, bs) = random_params(&mut rng, &arch);
    let mut nn: Network<F> = Network::new(&arch, ws, bs);

    let before = sample_loss(&mut nn, xs.row(0).unwrap().t(), &ys.row(0).unwrap().t());
    nn.fit(&xs, &ys, 1500, F(0.08)).unwrap();
    let after = sample_loss(&mut nn, xs.row(0).unwrap().t(), &ys.row(0).unwrap().t());
    assert!(after < before);

    let mut correct = 0;
    for r in 0..xs.rows {
        let out = nn.predict(xs.row(r).unwrap().t());
        let predicted = if out.data[0].0 >= out.data[1].0 { 0 } else { 1 };
        let expected = if ys.get(r, 0).unwrap().0 == 1.0 { 0 } else { 1 };
        if predicted == expected {
            correct += 1;
        }
    }
    let accuracy = correct as f64 / xs.rows as f64;
    assert!(accuracy > 0.9);
}
