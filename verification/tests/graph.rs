//! End-to-end tests of the graph engine over a single-precision scalar.

use wyrm::{
    Axis, DataInput, Graph, GradientAccumulator, GradientSink, IndexInputNode, InputNode,
    ParameterNode, Tensor, Variable,
};

const TOLERANCE: f32 = 0.05;

/// The concrete numeric element: single-precision floating point.
#[derive(Clone, Copy, Debug, PartialEq)]
pub struct F(pub f32);

impl wyrm::Scalar for F {
    fn spec_zero() -> F {
        F(0.0)
    }
    fn spec_one() -> F {
        F(1.0)
    }
    fn spec_two() -> F {
        F(2.0)
    }
    fn spec_add(self, other: F) -> F {
        F(self.0 + other.0)
    }
    fn spec_sub(self, other: F) -> F {
        F(self.0 - other.0)
    }
    fn spec_mul(self, other: F) -> F {
        F(self.0 * other.0)
    }
    fn spec_div(self, other: F) -> F {
        F(self.0 / other.0)
    }
    fn spec_neg(self) -> F {
        F(-self.0)
    }
    fn spec_exp(self) -> F {
        F(self.0.exp())
    }
    fn spec_ln(self) -> F {
        F(self.0.ln())
    }
    fn spec_tanh(self) -> F {
        F(self.0.tanh())
    }
    fn spec_sigmoid(self) -> F {
        F(1.0 / (1.0 + (-self.0).exp()))
    }
    fn spec_gt_zero(self) -> bool {
        self.0 > 0.0
    }
    fn spec_max(self, other: F) -> F {
        F(self.0.max(other.0))
    }
    fn zero() -> F {
        F(0.0)
    }
    fn one() -> F {
        F(1.0)
    }
    fn two() -> F {
        F(2.0)
    }
    fn add(&self, other: &F) -> F {
        F(self.0 + other.0)
    }
    fn sub(&self, other: &F) -> F {
        F(self.0 - other.0)
    }
    fn mul(&self, other: &F) -> F {
        F(self.0 * other.0)
    }
    fn div(&self, other: &F) -> F {
        F(self.0 / other.0)
    }
    fn neg(&self) -> F {
        F(-self.0)
    }
    fn exp(&self) -> F {
        F(self.0.exp())
    }
    fn ln(&self) -> F {
        F(self.0.ln())
    }
    fn tanh(&self) -> F {
        F(self.0.tanh())
    }
    fn sigmoid(&self) -> F {
        F(1.0 / (1.0 + (-self.0).exp()))
    }
    fn gt_zero(&self) -> bool {
        self.0 > 0.0
    }
    fn max(&self, other: &F) -> F {
        F(self.0.max(other.0))
    }
}

fn tensor_of(rows: usize, cols: usize, data: Vec<f32>) -> Tensor<F> {
    assert_eq!(data.len(), rows * cols);
    Tensor::from_vec(rows, cols, data.into_iter().map(F).collect())
}

fn filled(rows: usize, cols: usize, x: f32) -> Tensor<F> {
    Tensor::filled(rows, cols, F(x))
}

fn random_matrix(rows: usize, cols: usize) -> Tensor<F> {
    let mut data = Vec::with_capacity(rows * cols);
    for _ in 0..rows * cols {
        data.push(F(rand::random_range(-0.5..0.5f32)));
    }
    Tensor::from_vec(rows, cols, data)
}

fn random_index(rows: usize) -> usize {
    rand::random_range(0..rows)
}

fn scalar_sum_of(t: &Tensor<F>) -> f32 {
    let mut acc = 0.0f32;
    for r in 0..t.rows() {
        for c in 0..t.cols() {
            acc += t.get(r, c).0;
        }
    }
    acc
}

fn assert_close(x: &Tensor<F>, y: &Tensor<F>, tol: f32) {
    assert_eq!(x.rows(), y.rows());
    assert_eq!(x.cols(), y.cols());
    for r in 0..x.rows() {
        for c in 0..x.cols() {
            let a = x.get(r, c).0;
            let b = y.get(r, c).0;
            assert!(
                (a - b).abs() <= tol,
                "mismatch at ({}, {}): {} vs {}",
                r,
                c,
                a,
                b
            );
        }
    }
}

fn finite_difference(
    g: &mut Graph<F>,
    input: &Variable,
    output: &Variable,
) -> (Tensor<F>, Tensor<F>) {
    wyrm::finite_difference(g, input, output, F(1e-4), F(0.5e-4))
}

#[test]
fn test_constant_sub() {
    let mut g: Graph<F> = Graph::new();
    let x = ParameterNode::new(&mut g, filled(10, 10, 1.0));
    let y = x.scalar_sub(&mut g, F(1.0)).mul_scalar(&mut g, F(2.0));

    assert_eq!(scalar_sum_of(y.value(&g)), 0.0);
    y.zero_gradient(&mut g);
    y.forward(&mut g);
    y.backward(&mut g, F(1.0));
    assert_eq!(scalar_sum_of(y.value(&g)), 0.0);

    let (difference, gradient) = finite_difference(&mut g, &x, &y);
    assert_close(&difference, &gradient, TOLERANCE);
}

#[test]
fn constant_sub_gradient_is_minus_two() {
    let mut g: Graph<F> = Graph::new();
    let x = ParameterNode::new(&mut g, filled(10, 10, 1.0));
    let y = x.scalar_sub(&mut g, F(1.0)).mul_scalar(&mut g, F(2.0));

    y.zero_gradient(&mut g);
    y.forward(&mut g);
    y.backward(&mut g, F(1.0));

    let grad = x.gradient(&g);
    assert_close(&grad, &filled(10, 10, -2.0), 1e-6);
}

#[test]
fn parameter_deduplication() {
    let mut g: Graph<F> = Graph::new();
    let x = ParameterNode::new(&mut g, random_matrix(1, 1));
    let y = ParameterNode::new(&mut g, random_matrix(1, 1));

    let z = x.add(&y, &mut g);
    let z = z.add(&z, &mut g);

    assert_eq!(z.parameters().len(), 2);
}

#[test]
fn add_finite_difference() {
    let mut g: Graph<F> = Graph::new();
    let x = ParameterNode::new(&mut g, random_matrix(1, 1));
    let y = ParameterNode::new(&mut g, random_matrix(1, 1));
    let z = x.add(&y, &mut g).add(&x, &mut g).add(&x, &mut g);

    let (difference, gradient) = finite_difference(&mut g, &x, &z);
    assert_close(&difference, &gradient, TOLERANCE);
    let (difference, gradient) = finite_difference(&mut g, &y, &z);
    assert_close(&difference, &gradient, TOLERANCE);
}

#[test]
fn sub_finite_difference() {
    let mut g: Graph<F> = Graph::new();
    let x = ParameterNode::new(&mut g, random_matrix(1, 1));
    let y = ParameterNode::new(&mut g, random_matrix(1, 1));
    let z = x.sub(&y.sub(&x, &mut g), &mut g);
    let z = z.mul_scalar(&mut g, F(2.0)).add(&z.sigmoid(&mut g), &mut g);

    let (difference, gradient) = finite_difference(&mut g, &x, &z);
    assert_close(&difference, &gradient, TOLERANCE);
    let (difference, gradient) = finite_difference(&mut g, &y, &z);
    assert_close(&difference, &gradient, TOLERANCE);
}

#[test]
fn mul_finite_difference() {
    let mut g: Graph<F> = Graph::new();
    let x = ParameterNode::new(&mut g, random_matrix(10, 10));
    let y = ParameterNode::new(&mut g, random_matrix(10, 10));
    let z = x.mul(&y, &mut g);
    let z = z.add(&z, &mut g);

    let (difference, gradient) = finite_difference(&mut g, &x, &z);
    assert_close(&difference, &gradient, TOLERANCE);
    let (difference, gradient) = finite_difference(&mut g, &y, &z);
    assert_close(&difference, &gradient, TOLERANCE);
}

#[test]
fn div_finite_difference() {
    let mut g: Graph<F> = Graph::new();
    let x = ParameterNode::new(&mut g, random_matrix(1, 1));
    let y = ParameterNode::new(&mut g, filled(1, 1, 0.6));
    let z = x.add(&x, &mut g).div(&y, &mut g);

    let (difference, gradient) = finite_difference(&mut g, &x, &z);
    assert_close(&difference, &gradient, TOLERANCE);
}

#[test]
fn vector_dot_finite_difference() {
    let mut g: Graph<F> = Graph::new();
    let x = ParameterNode::new(&mut g, random_matrix(10, 5));
    let y = ParameterNode::new(&mut g, random_matrix(10, 5));
    let z = x.vector_dot(&y, &mut g);
    let z = z.add(&z, &mut g);

    let (difference, gradient) = finite_difference(&mut g, &x, &z);
    assert_close(&difference, &gradient, TOLERANCE);

    let (difference, gradient) = finite_difference(&mut g, &y, &z);
    assert_close(&difference, &gradient, TOLERANCE);
}

#[test]
fn dot_finite_difference() {
    let mut g: Graph<F> = Graph::new();
    let x = ParameterNode::new(&mut g, random_matrix(10, 5));
    let y = ParameterNode::new(&mut g, random_matrix(5, 10));
    let z = x.add(&x, &mut g).dot(&y, &mut g);

    let (difference, gradient) = finite_difference(&mut g, &x, &z);
    assert_close(&difference, &gradient, TOLERANCE);

    let (difference, gradient) = finite_difference(&mut g, &y, &z);
    assert_close(&difference, &gradient, TOLERANCE);
}

#[test]
fn dot_accumulation_finite_difference() {
    let mut g: Graph<F> = Graph::new();
    let x = ParameterNode::new(&mut g, random_matrix(10, 5));
    let y = ParameterNode::new(&mut g, random_matrix(5, 10));
    let z = x.dot(&y, &mut g);
    let v = z.mul(&z, &mut g);

    let (difference, gradient) = finite_difference(&mut g, &x, &v);
    assert_close(&difference, &gradient, TOLERANCE);

    let (difference, gradient) = finite_difference(&mut g, &y, &v);
    assert_close(&difference, &gradient, TOLERANCE);
}

#[test]
fn square_finite_difference() {
    let mut g: Graph<F> = Graph::new();
    let x = ParameterNode::new(&mut g, random_matrix(10, 5));
    let z = x.square(&mut g);

    let (difference, gradient) = finite_difference(&mut g, &x, &z);
    assert_close(&difference, &gradient, TOLERANCE);
}

#[test]
fn ln_finite_difference() {
    let mut g: Graph<F> = Graph::new();
    let x = ParameterNode::new(&mut g, random_matrix(2, 2));
    let z = x.add(&x, &mut g).exp(&mut g).ln(&mut g);

    let (difference, gradient) = finite_difference(&mut g, &x, &z);
    assert_close(&difference, &gradient, TOLERANCE);
}

#[test]
fn tanh_finite_difference() {
    let mut g: Graph<F> = Graph::new();
    let x = ParameterNode::new(&mut g, random_matrix(2, 2));
    let z = x.add(&x, &mut g).tanh(&mut g);

    let (difference, gradient) = finite_difference(&mut g, &x, &z);
    assert_close(&difference, &gradient, TOLERANCE);
}

#[test]
fn sum_finite_difference() {
    let mut g: Graph<F> = Graph::new();
    let x = ParameterNode::new(&mut g, random_matrix(10, 5));
    let z = x.add(&x, &mut g).scalar_sum(&mut g);

    let (difference, gradient) = finite_difference(&mut g, &x, &z);
    assert_close(&difference, &gradient, TOLERANCE * 2.0);
}

#[test]
fn squared_sum_finite_difference() {
    let mut g: Graph<F> = Graph::new();
    let x = ParameterNode::new(&mut g, random_matrix(10, 5));
    let z = x.square(&mut g).scalar_sum(&mut g);

    let (difference, gradient) = finite_difference(&mut g, &x, &z);
    assert_close(&difference, &gradient, TOLERANCE);
}

#[test]
fn transpose_finite_difference() {
    let mut g: Graph<F> = Graph::new();
    let x = ParameterNode::new(&mut g, random_matrix(10, 5));
    let z = x.add(&x, &mut g).t(&mut g);

    let (difference, gradient) = finite_difference(&mut g, &x, &z);
    assert_close(&difference, &gradient, TOLERANCE);
}

#[test]
fn exp_finite_difference() {
    let mut g: Graph<F> = Graph::new();
    let x = ParameterNode::new(&mut g, random_matrix(10, 5));
    let z = x.add(&x, &mut g).exp(&mut g);

    let (difference, gradient) = finite_difference(&mut g, &x, &z);
    assert_close(&difference, &gradient, TOLERANCE);
}

#[test]
fn dot_square_finite_difference() {
    let mut g: Graph<F> = Graph::new();
    let x = ParameterNode::new(&mut g, random_matrix(10, 5));
    let y = ParameterNode::new(&mut g, random_matrix(10, 5));
    let z = x.vector_dot(&y, &mut g).square(&mut g);

    let (difference, gradient) = finite_difference(&mut g, &x, &z);
    assert_close(&difference, &gradient, TOLERANCE);
}

#[test]
fn sigmoid_finite_difference() {
    let mut g: Graph<F> = Graph::new();
    let x = ParameterNode::new(&mut g, random_matrix(10, 5));
    let z = x.add(&x, &mut g).sigmoid(&mut g);
    let z = z.add(&z, &mut g);

    let (difference, gradient) = finite_difference(&mut g, &x, &z);
    assert_close(&difference, &gradient, TOLERANCE);
}

#[test]
fn relu_finite_difference() {
    let mut g: Graph<F> = Graph::new();
    let x = ParameterNode::new(&mut g, random_matrix(10, 5));
    let z = x.add(&x, &mut g).relu(&mut g);
    let z = z.mul_scalar(&mut g, F(3.0));

    let (difference, gradient) = finite_difference(&mut g, &x, &z);
    assert_close(&difference, &gradient, TOLERANCE);
}

#[test]
fn neg_finite_difference() {
    let mut g: Graph<F> = Graph::new();
    let x = ParameterNode::new(&mut g, random_matrix(10, 5));
    let z = x.add(&x, &mut g).neg(&mut g);

    let (difference, gradient) = finite_difference(&mut g, &x, &z);
    assert_close(&difference, &gradient, TOLERANCE);
}

#[test]
fn softmax_finite_difference() {
    let mut g: Graph<F> = Graph::new();
    let x = ParameterNode::new(&mut g, random_matrix(1, 10));
    let z = x.add(&x, &mut g).softmax(&mut g);

    let (difference, gradient) = finite_difference(&mut g, &x, &z);
    assert_close(&difference, &gradient, TOLERANCE);
}

#[test]
fn log_softmax_finite_difference() {
    let mut g: Graph<F> = Graph::new();
    let x = ParameterNode::new(&mut g, random_matrix(1, 10));
    let z = x.add(&x, &mut g).log_softmax(&mut g);
    let v = x.add(&x, &mut g).softmax(&mut g).ln(&mut g);

    assert_close(v.value(&g), z.value(&g), TOLERANCE);

    let (difference, gradient) = finite_difference(&mut g, &x, &z);
    assert_close(&difference, &gradient, TOLERANCE);
}

#[test]
fn rowwise_stack_finite_difference() {
    let mut g: Graph<F> = Graph::new();
    let x = ParameterNode::new(&mut g, random_matrix(10, 5));
    let y = ParameterNode::new(&mut g, random_matrix(10, 5));

    let z = x.stack(&y, Axis::Rows, &mut g);
    let z = z.sigmoid(&mut g).mul(&z.relu(&mut g), &mut g);

    assert_eq!(z.value(&g).rows(), 20);
    assert_eq!(z.value(&g).cols(), 5);

    let (difference, gradient) = finite_difference(&mut g, &x, &z);
    assert_close(&difference, &gradient, TOLERANCE);

    let (difference, gradient) = finite_difference(&mut g, &y, &z);
    assert_close(&difference, &gradient, TOLERANCE);
}

#[test]
fn columnwise_stack_finite_difference() {
    let mut g: Graph<F> = Graph::new();
    let x = ParameterNode::new(&mut g, random_matrix(10, 5));
    let y = ParameterNode::new(&mut g, random_matrix(10, 5));

    let z = x.stack(&y, Axis::Cols, &mut g).sigmoid(&mut g);

    assert_eq!(z.value(&g).rows(), 10);
    assert_eq!(z.value(&g).cols(), 10);

    let (difference, gradient) = finite_difference(&mut g, &x, &z);
    assert_close(&difference, &gradient, TOLERANCE);

    let (difference, gradient) = finite_difference(&mut g, &y, &z);
    assert_close(&difference, &gradient, TOLERANCE);
}

#[test]
fn columnwise_view_finite_difference() {
    let mut g: Graph<F> = Graph::new();
    let x = ParameterNode::new(&mut g, random_matrix(10, 30));

    let x_0 = x.slice(&mut g, 0, 0, 10, 10);
    let x_1 = x.slice(&mut g, 0, 10, 10, 10);
    let x_2 = x.slice(&mut g, 0, 20, 10, 10);

    assert_eq!(x_0.value(&g).rows(), 10);
    assert_eq!(x_0.value(&g).cols(), 10);
    assert_eq!(x_1.value(&g).rows(), 10);
    assert_eq!(x_1.value(&g).cols(), 10);
    assert_eq!(x_2.value(&g).rows(), 10);
    assert_eq!(x_2.value(&g).cols(), 10);

    let z = x_0.add(&x_1, &mut g).add(&x_2, &mut g).sigmoid(&mut g);

    let (difference, gradient) = finite_difference(&mut g, &x, &z);
    assert_close(&difference, &gradient, TOLERANCE);
}

#[test]
fn sparse_index_finite_difference() {
    for _ in 0..10 {
        let mut g: Graph<F> = Graph::new();
        let x = ParameterNode::new(&mut g, random_matrix(100, 5));
        let idx_0 = IndexInputNode::new(&mut g, &vec![random_index(10)]);
        let idx_1 = IndexInputNode::new(&mut g, &vec![random_index(10)]);

        let z0 = x.index(&idx_0, &mut g).tanh(&mut g);
        let z1 = x.index(&idx_1, &mut g);
        let z = z0.mul(&z1, &mut g).square(&mut g);

        let (difference, gradient) = finite_difference(&mut g, &x, &z);
        assert_close(&difference, &gradient, TOLERANCE);
    }
}

#[test]
fn sparse_accumulation_hits_only_indexed_rows() {
    let mut g: Graph<F> = Graph::new();
    let x = ParameterNode::new(&mut g, random_matrix(10, 4));
    let idx_0 = IndexInputNode::new(&mut g, &vec![2]);
    let idx_1 = IndexInputNode::new(&mut g, &vec![2]);

    let z0 = x.index(&idx_0, &mut g);
    let z1 = x.index(&idx_1, &mut g);
    let z = z0.add(&z1, &mut g).scalar_sum(&mut g);

    z.zero_gradient(&mut g);
    z.forward(&mut g);
    z.backward(&mut g, F(1.0));

    let grad = x.gradient(&g);
    for r in 0..10 {
        for c in 0..4 {
            let expected = if r == 2 { 2.0 } else { 0.0 };
            assert_eq!(grad.get(r, c).0, expected);
        }
    }
}

#[test]
fn zero_gradient_resets_to_exact_zero() {
    let mut g: Graph<F> = Graph::new();
    let x = ParameterNode::new(&mut g, random_matrix(6, 3));
    let idx = IndexInputNode::new(&mut g, &vec![1, 4]);
    let dense_path = x.square(&mut g).scalar_sum(&mut g);
    let sparse_path = x.index(&idx, &mut g).scalar_sum(&mut g);
    let z = dense_path.add(&sparse_path, &mut g);

    z.forward(&mut g);
    z.backward(&mut g, F(1.0));
    z.backward(&mut g, F(0.5));

    z.zero_gradient(&mut g);
    let grad = x.gradient(&g);
    for r in 0..6 {
        for c in 0..3 {
            assert_eq!(grad.get(r, c).0, 0.0);
        }
    }
}

#[test]
fn matmul_exact_values() {
    let mut g: Graph<F> = Graph::new();
    let a = InputNode::new(&mut g, tensor_of(2, 2, vec![1.0, 2.0, 3.0, 4.0]));
    let b = InputNode::new(&mut g, tensor_of(2, 2, vec![5.0, 6.0, 7.0, 8.0]));
    let c = a.dot(&b, &mut g);

    let expected = tensor_of(2, 2, vec![19.0, 22.0, 43.0, 50.0]);
    assert_close(c.value(&g), &expected, 1e-6);
}

#[test]
fn softmax_exact_values() {
    let mut g: Graph<F> = Graph::new();
    let a = InputNode::new(&mut g, tensor_of(2, 2, vec![0.0, 0.0, 1.0, 1.0]));
    let s = a.softmax(&mut g);

    let expected = filled(2, 2, 0.5);
    assert_close(s.value(&g), &expected, 1e-6);
}

#[test]
fn transpose_exact_values() {
    let mut g: Graph<F> = Graph::new();
    let a = InputNode::new(&mut g, tensor_of(2, 3, vec![1.0, 2.0, 3.0, 4.0, 5.0, 6.0]));
    let t = a.t(&mut g);

    let expected = tensor_of(3, 2, vec![1.0, 4.0, 2.0, 5.0, 3.0, 6.0]);
    assert_close(t.value(&g), &expected, 0.0);
}

#[test]
fn set_value_propagates_on_forward() {
    let mut g: Graph<F> = Graph::new();
    let x = InputNode::new(&mut g, filled(2, 2, 1.0));
    let y = x.mul_scalar(&mut g, F(3.0));

    y.forward(&mut g);
    assert_eq!(scalar_sum_of(y.value(&g)), 12.0);

    x.set_value(&mut g, &filled(2, 2, 2.0));
    y.forward(&mut g);
    assert_eq!(scalar_sum_of(y.value(&g)), 24.0);
}

#[test]
fn index_input_replacement() {
    let mut g: Graph<F> = Graph::new();
    let x = ParameterNode::new(&mut g, tensor_of(3, 1, vec![10.0, 20.0, 30.0]));
    let idx = IndexInputNode::new(&mut g, &vec![0]);
    let z = x.index(&idx, &mut g);

    z.forward(&mut g);
    assert_eq!(z.value(&g).get(0, 0).0, 10.0);

    idx.set_value(&mut g, 2usize);
    z.forward(&mut g);
    assert_eq!(z.value(&g).get(0, 0).0, 30.0);
}

fn sgd_step(g: &mut Graph<F>, params: &[Variable], learning_rate: f32) {
    for p in params {
        let grad = p.gradient(g);
        let value = p.value(g);
        let rows = value.rows();
        let cols = value.cols();
        let mut data = Vec::with_capacity(rows * cols);
        for r in 0..rows {
            for c in 0..cols {
                data.push(F(value.get(r, c).0 - learning_rate * grad.get(r, c).0));
            }
        }
        let updated = Tensor::from_vec(rows, cols, data);
        p.set_value(g, &updated);
        p.zero_gradient(g);
    }
}

#[test]
fn univariate_regression() {
    let mut g: Graph<F> = Graph::new();
    let slope = ParameterNode::new(&mut g, random_matrix(1, 1));
    let intercept = ParameterNode::new(&mut g, random_matrix(1, 1));

    let num_epochs = 500;

    let x = InputNode::new(&mut g, random_matrix(1, 1));
    let y = InputNode::new(&mut g, random_matrix(1, 1));

    let y_hat = slope.mul(&x, &mut g).add(&intercept, &mut g);
    let diff = y.sub(&y_hat, &mut g);
    let loss = diff.square(&mut g);

    let params = [slope.clone(), intercept.clone()];

    for _ in 0..num_epochs {
        let x_value: f32 = rand::random_range(0.0..1.0f32);
        let y_value = 0.5 * x_value + 0.2;

        x.set_value(&mut g, F(x_value));
        y.set_value(&mut g, F(y_value));

        loss.forward(&mut g);
        loss.backward(&mut g, F(1.0));

        sgd_step(&mut g, &params, 0.5);
    }

    loss.forward(&mut g);
    assert!(scalar_sum_of(loss.value(&g)) < 1.0e-2);
}

#[test]
fn multivariate_regression() {
    let mut g: Graph<F> = Graph::new();
    let slope = ParameterNode::new(&mut g, random_matrix(1, 3));
    let intercept = ParameterNode::new(&mut g, random_matrix(1, 1));

    let num_epochs = 300;

    let coefficients = [1.0f32, 2.0, 3.0];

    let x = InputNode::new(&mut g, random_matrix(1, 3));
    let y = InputNode::new(&mut g, random_matrix(1, 1));

    let y_hat = x.vector_dot(&slope, &mut g).add(&intercept, &mut g);
    let diff = y.sub(&y_hat, &mut g);
    let loss = diff.square(&mut g);

    let params = [slope.clone(), intercept.clone()];

    for _ in 0..num_epochs {
        let xs: Vec<f32> = (0..3).map(|_| rand::random_range(0.0..1.0f32)).collect();
        let y_value: f32 = xs
            .iter()
            .zip(coefficients.iter())
            .map(|(a, b)| a * b)
            .sum::<f32>()
            + 5.0;

        x.set_value(&mut g, &tensor_of(1, 3, xs));
        y.set_value(&mut g, F(y_value));

        loss.forward(&mut g);
        loss.backward(&mut g, F(1.0));

        sgd_step(&mut g, &params, 0.1);
    }

    loss.forward(&mut g);
    assert!(scalar_sum_of(loss.value(&g)) < 1.0e-1);
}

#[test]
fn embedding_factorization() {
    let (rows, cols) = (10usize, 4usize);

    let mut g: Graph<F> = Graph::new();

    let true_u = random_matrix(rows, 10);
    let true_v = random_matrix(cols, 10);
    let mut target = vec![0.0f32; rows * cols];
    for r in 0..rows {
        for c in 0..cols {
            let mut acc = 0.0f32;
            for k in 0..10 {
                acc += true_u.get(r, k).0 * true_v.get(c, k).0;
            }
            target[r * cols + c] = acc;
        }
    }

    let output = InputNode::new(&mut g, random_matrix(1, 1));

    let u_embedding = ParameterNode::new(&mut g, random_matrix(rows, 10));
    let v_embedding = ParameterNode::new(&mut g, random_matrix(cols, 10));

    let u_index = IndexInputNode::new(&mut g, &vec![0]);
    let v_index = IndexInputNode::new(&mut g, &vec![0]);

    let u_vec = u_embedding.index(&u_index, &mut g);
    let v_vec = v_embedding.index(&v_index, &mut g);

    let y_hat = u_vec.vector_dot(&v_vec, &mut g);
    let loss = output.sub(&y_hat, &mut g).square(&mut g);

    let params = [u_embedding.clone(), v_embedding.clone()];

    let num_epochs = 1500;
    let mut loss_val = 0.0f32;

    for _ in 0..num_epochs {
        loss_val = 0.0;

        for row_idx in 0..rows {
            for col_idx in 0..cols {
                u_index.set_value(&mut g, row_idx);
                v_index.set_value(&mut g, col_idx);

                output.set_value(&mut g, F(target[row_idx * cols + col_idx]));

                loss.forward(&mut g);
                loss.backward(&mut g, F(1.0));

                loss_val += scalar_sum_of(loss.value(&g));

                sgd_step(&mut g, &params, 0.1);
            }
        }
    }

    assert!(loss_val < 1.0e-2);
}

#[test]
fn stack_exact_values() {
    let mut g: Graph<F> = Graph::new();
    let a = InputNode::new(&mut g, tensor_of(1, 2, vec![1.0, 2.0]));
    let b = InputNode::new(&mut g, tensor_of(1, 2, vec![3.0, 4.0]));

    let rows = a.stack(&b, Axis::Rows, &mut g);
    let expected_rows = tensor_of(2, 2, vec![1.0, 2.0, 3.0, 4.0]);
    assert_close(rows.value(&g), &expected_rows, 0.0);

    let cols = a.stack(&b, Axis::Cols, &mut g);
    let expected_cols = tensor_of(1, 4, vec![1.0, 2.0, 3.0, 4.0]);
    assert_close(cols.value(&g), &expected_cols, 0.0);
}

#[test]
fn slice_exact_values() {
    let mut g: Graph<F> = Graph::new();
    let a = InputNode::new(
        &mut g,
        tensor_of(3, 3, vec![1.0, 2.0, 3.0, 4.0, 5.0, 6.0, 7.0, 8.0, 9.0]),
    );
    let s = a.slice(&mut g, 1, 1, 2, 2);
    let expected = tensor_of(2, 2, vec![5.0, 6.0, 8.0, 9.0]);
    assert_close(s.value(&g), &expected, 0.0);
}

#[test]
fn vector_dot_exact_values() {
    let mut g: Graph<F> = Graph::new();
    let a = InputNode::new(&mut g, tensor_of(2, 2, vec![1.0, 2.0, 3.0, 4.0]));
    let b = InputNode::new(&mut g, tensor_of(2, 2, vec![5.0, 6.0, 7.0, 8.0]));
    let d = a.vector_dot(&b, &mut g);

    let expected = tensor_of(2, 1, vec![17.0, 53.0]);
    assert_close(d.value(&g), &expected, 1e-6);
}

#[test]
fn scalar_sum_exact_values() {
    let mut g: Graph<F> = Graph::new();
    let a = InputNode::new(&mut g, tensor_of(2, 3, vec![1.0, 2.0, 3.0, 4.0, 5.0, 6.0]));
    let s = a.scalar_sum(&mut g);
    assert_eq!(s.value(&g).get(0, 0).0, 21.0);
}

#[test]
fn relu_exact_values() {
    let mut g: Graph<F> = Graph::new();
    let a = InputNode::new(&mut g, tensor_of(1, 4, vec![-1.0, 0.0, 0.5, 2.0]));
    let r = a.relu(&mut g);
    let expected = tensor_of(1, 4, vec![0.0, 0.0, 0.5, 2.0]);
    assert_close(r.value(&g), &expected, 0.0);
}

#[test]
fn softmax_is_rowwise() {
    let mut g: Graph<F> = Graph::new();
    let a = InputNode::new(&mut g, tensor_of(2, 2, vec![1.0, 1.0, 5.0, 5.0]));
    let s = a.softmax(&mut g);
    let expected = filled(2, 2, 0.5);
    assert_close(s.value(&g), &expected, 1e-6);

    let row_sum_0 = s.value(&g).get(0, 0).0 + s.value(&g).get(0, 1).0;
    let row_sum_1 = s.value(&g).get(1, 0).0 + s.value(&g).get(1, 1).0;
    assert!((row_sum_0 - 1.0).abs() < 1e-6);
    assert!((row_sum_1 - 1.0).abs() < 1e-6);
}

#[test]
fn overlapping_parameter_merge() {
    let mut g: Graph<F> = Graph::new();
    let x = ParameterNode::new(&mut g, random_matrix(1, 1));
    let y = ParameterNode::new(&mut g, random_matrix(1, 1));
    let z = ParameterNode::new(&mut g, random_matrix(1, 1));

    let a = x.add(&y, &mut g);
    let b = y.add(&z, &mut g);
    let w = a.add(&b, &mut g);

    assert_eq!(w.parameters().len(), 3);

    let reused = w.add(&w, &mut g).add(&w, &mut g);
    assert_eq!(reused.parameters().len(), 3);
    assert_eq!(reused.parameters(), w.parameters());
}

#[test]
fn dense_and_sparse_gradients_combine() {
    let mut g: Graph<F> = Graph::new();
    let x = ParameterNode::new(&mut g, filled(3, 2, 1.0));
    let idx = IndexInputNode::new(&mut g, &vec![1]);

    let dense_path = x.square(&mut g).scalar_sum(&mut g);
    let sparse_path = x.index(&idx, &mut g).scalar_sum(&mut g);
    let z = dense_path.add(&sparse_path, &mut g);

    z.zero_gradient(&mut g);
    z.forward(&mut g);
    z.backward(&mut g, F(1.0));

    // The dense path contributes 2 * x = 2 everywhere; the sparse path adds
    // 1 on row 1 only.
    let grad = x.gradient(&g);
    let expected = tensor_of(3, 2, vec![2.0, 2.0, 3.0, 3.0, 2.0, 2.0]);
    assert_close(&grad, &expected, 1e-6);
}

#[test]
fn fan_in_accumulates_per_consumer() {
    let mut g: Graph<F> = Graph::new();
    let x = ParameterNode::new(&mut g, filled(1, 1, 3.0));
    let z = x.add(&x, &mut g).add(&x, &mut g);

    z.zero_gradient(&mut g);
    z.forward(&mut g);
    z.backward(&mut g, F(1.0));

    // x is consumed three times, so it receives three unit contributions.
    let grad = x.gradient(&g);
    assert_eq!(grad.get(0, 0).0, 3.0);
}

#[test]
fn forward_is_idempotent_for_fan_out() {
    let mut g: Graph<F> = Graph::new();
    let x = InputNode::new(&mut g, filled(2, 2, 2.0));
    let shared = x.square(&mut g);
    let z = shared.add(&shared, &mut g);

    z.forward(&mut g);
    let first = scalar_sum_of(z.value(&g));
    z.forward(&mut g);
    z.forward(&mut g);
    let second = scalar_sum_of(z.value(&g));
    assert_eq!(first, second);
    assert_eq!(first, 32.0);
}

#[test]
fn accumulator_combines_contributions() {
    let mut acc: GradientAccumulator<F> = GradientAccumulator::new(3, 2);

    let dense = tensor_of(3, 2, vec![1.0, 1.0, 1.0, 1.0, 1.0, 1.0]);
    acc.accumulate_gradient(&dense);
    acc.accumulate_gradient(&dense);

    let rows = vec![2usize, 2usize];
    let block = tensor_of(2, 2, vec![5.0, 5.0, 7.0, 7.0]);
    acc.accumulate_gradient((&rows, &block));

    let materialized = acc.materialized_gradient();
    let expected = tensor_of(3, 2, vec![2.0, 2.0, 2.0, 2.0, 14.0, 14.0]);
    assert_close(&materialized, &expected, 1e-6);

    let dense_only = acc.dense_gradient();
    let expected_dense = tensor_of(3, 2, vec![2.0, 2.0, 2.0, 2.0, 2.0, 2.0]);
    assert_close(&dense_only, &expected_dense, 1e-6);

    acc.zero_gradient();
    let reset = acc.materialized_gradient();
    assert_close(&reset, &tensor_of(3, 2, vec![0.0; 6]), 0.0);
}

#[test]
fn sparse_slot_reuse_after_reset() {
    let mut acc: GradientAccumulator<F> = GradientAccumulator::new(4, 1);

    let rows = vec![0usize];
    let block = tensor_of(1, 1, vec![1.0]);
    acc.accumulate_gradient((&rows, &block));
    acc.zero_gradient();

    let rows2 = vec![3usize];
    let block2 = tensor_of(1, 1, vec![9.0]);
    acc.accumulate_gradient((&rows2, &block2));

    let materialized = acc.materialized_gradient();
    let expected = tensor_of(4, 1, vec![0.0, 0.0, 0.0, 9.0]);
    assert_close(&materialized, &expected, 0.0);
}

#[test]
fn needs_gradient_follows_parameters() {
    let mut g: Graph<F> = Graph::new();
    let x = InputNode::new(&mut g, filled(2, 2, 1.0));
    let p = ParameterNode::new(&mut g, filled(2, 2, 1.0));

    let input_only = x.square(&mut g).scalar_sum(&mut g);
    let with_param = x.mul(&p, &mut g).scalar_sum(&mut g);

    assert!(!g.needs_gradient_of(input_only.node()));
    assert!(g.needs_gradient_of(with_param.node()));
    assert!(g.needs_gradient_of(p.node()));
    assert!(!g.needs_gradient_of(x.node()));
}

#[test]
fn softmax_multirow_finite_difference() {
    let mut g: Graph<F> = Graph::new();
    let x = ParameterNode::new(&mut g, random_matrix(3, 4));
    let z = x.add(&x, &mut g).softmax(&mut g);

    let (difference, gradient) = finite_difference(&mut g, &x, &z);
    assert_close(&difference, &gradient, TOLERANCE);
}

#[test]
fn log_softmax_multirow_finite_difference() {
    let mut g: Graph<F> = Graph::new();
    let x = ParameterNode::new(&mut g, random_matrix(3, 4));
    let z = x.add(&x, &mut g).log_softmax(&mut g);

    let (difference, gradient) = finite_difference(&mut g, &x, &z);
    assert_close(&difference, &gradient, TOLERANCE);
}

#[test]
fn clear_guarantees_recomputation() {
    let mut g: Graph<F> = Graph::new();
    let x = InputNode::new(&mut g, filled(1, 1, 2.0));
    let y = x.square(&mut g);

    x.set_value(&mut g, F(5.0));
    y.clear();
    y.forward(&mut g);
    assert_eq!(y.value(&g).get(0, 0).0, 25.0);
}
