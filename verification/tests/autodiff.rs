use dezero::{add, exp, square};
use dezero::{Error, Function, Graph, Numeric, Op, Operation, Value, Variable};
use ndarray::{arr0, arr1, arr2, ArrayD};

/// An n-dimensional array of `f64` as the engine's value.
#[derive(Clone, Debug, PartialEq)]
struct Tensor(ArrayD<f64>);

impl Value for Tensor {
    fn same_shape(&self, other: &Self) -> bool {
        self.0.shape() == other.0.shape()
    }

    fn ones_like(&self) -> Option<Self> {
        Some(Tensor(ArrayD::ones(self.0.raw_dim())))
    }

    fn plus(&self, rhs: &Self) -> Option<Self> {
        if self.same_shape(rhs) {
            Some(Tensor(&self.0 + &rhs.0))
        } else {
            None
        }
    }
}

impl Numeric for Tensor {
    fn times(&self, rhs: &Self) -> Option<Self> {
        if self.same_shape(rhs) {
            Some(Tensor(&self.0 * &rhs.0))
        } else {
            None
        }
    }

    fn scaled(&self, factor: i32) -> Self {
        Tensor(self.0.mapv(|n| f64::from(factor) * n))
    }

    fn powi(&self, exponent: i32) -> Self {
        Tensor(self.0.mapv(|n| n.powi(exponent)))
    }

    fn exp(&self) -> Self {
        Tensor(self.0.mapv(f64::exp))
    }

    fn duplicate(&self) -> Self {
        self.clone()
    }
}

fn scalar(v: f64) -> Tensor {
    Tensor(arr0(v).into_dyn())
}

fn value_of(t: &Tensor) -> f64 {
    assert_eq!(t.0.ndim(), 0);
    t.0.sum()
}

fn grad_of(g: &Graph<Tensor, Op>, x: &Variable) -> f64 {
    value_of(x.grad(g).unwrap())
}

/// `square(exp(square(x)))`, as a plain function.
fn chain(x: f64) -> f64 {
    (x * x).exp().powi(2)
}

fn chain_gradient(x: f64) -> f64 {
    let mut g: Graph<Tensor, Op> = Graph::new();
    let x = Variable::new(&mut g, scalar(x));
    let a = square(&mut g, &x);
    let b = exp(&mut g, &a);
    let y = square(&mut g, &b);
    y.backward(&mut g).unwrap();
    grad_of(&g, &x)
}

#[test]
fn test() {
    let mut g: Graph<Tensor, Op> = Graph::new();
    let x = Variable::new(&mut g, scalar(2.0));
    let y = Variable::new(&mut g, scalar(3.0));
    let x2 = square(&mut g, &x);
    let y2 = square(&mut g, &y);
    let z = add(&mut g, &x2, &y2).unwrap();
    z.backward(&mut g).unwrap();
    println!("{}", z.data(&g).0);
    println!("{}", x.grad(&g).unwrap().0);
    println!("{}", y.grad(&g).unwrap().0);
    assert_eq!(value_of(z.data(&g)), 13.0);
    assert_eq!(grad_of(&g, &x), 4.0);
    assert_eq!(grad_of(&g, &y), 6.0);
    assert_eq!(grad_of(&g, &z), 1.0);
}

#[test]
fn square_gives_the_square_and_twice_the_input() {
    for v in [-3.5, -1.0, 0.0, 0.25, 2.0, 10.0] {
        let mut g: Graph<Tensor, Op> = Graph::new();
        let x = Variable::new(&mut g, scalar(v));
        let y = square(&mut g, &x);
        assert_eq!(value_of(y.data(&g)), v * v);
        assert!(x.grad(&g).is_none());
        assert_eq!(y.backward(&mut g), Ok(()));
        assert_eq!(grad_of(&g, &x), 2.0 * v);
        assert_eq!(grad_of(&g, &y), 1.0);
    }
}

#[test]
fn exp_gives_the_exponential_as_value_and_as_gradient() {
    for v in [-2.0, 0.0, 0.5, 1.0, 3.0] {
        let mut g: Graph<Tensor, Op> = Graph::new();
        let x = Variable::new(&mut g, scalar(v));
        let y = exp(&mut g, &x);
        assert_eq!(value_of(y.data(&g)), v.exp());
        y.backward(&mut g).unwrap();
        assert_eq!(grad_of(&g, &x), v.exp());
    }
}

#[test]
fn composite_chain_at_one_half() {
    let gradient = chain_gradient(0.5);
    assert!((gradient - 3.297442541).abs() < 1e-4);
    let eps = 1e-4;
    let numeric = (chain(0.5 + eps) - chain(0.5 - eps)) / (2.0 * eps);
    assert!((gradient - numeric).abs() < 1e-4);
}

#[test]
fn analytic_gradient_matches_central_difference() {
    let eps = 1e-4;
    for x in [-1.0, -0.3, 0.0, 0.1, 0.5, 0.9, 1.2] {
        let numeric = (chain(x + eps) - chain(x - eps)) / (2.0 * eps);
        assert!((chain_gradient(x) - numeric).abs() < 1e-4, "at {}", x);
    }
}

#[test]
fn a_node_used_twice_gathers_both_gradients() {
    for v in [-1.5, 0.0, 2.0, 3.0] {
        let mut g: Graph<Tensor, Op> = Graph::new();
        let x = Variable::new(&mut g, scalar(v));
        let a = square(&mut g, &x);
        let b = square(&mut g, &x);
        let z = add(&mut g, &a, &b).unwrap();
        z.backward(&mut g).unwrap();
        assert_eq!(grad_of(&g, &x), 4.0 * v);
        assert_eq!(value_of(z.data(&g)), 2.0 * v * v);
    }
}

#[test]
fn a_node_added_to_itself_gets_two() {
    let mut g: Graph<Tensor, Op> = Graph::new();
    let x = Variable::new(&mut g, scalar(3.0));
    let y = add(&mut g, &x, &x).unwrap();
    y.backward(&mut g).unwrap();
    assert_eq!(value_of(y.data(&g)), 6.0);
    assert_eq!(grad_of(&g, &x), 2.0);
}

#[test]
fn a_shared_node_is_complete_before_it_is_visited() {
    // y = (x^2)^2 + (x^2)^2 = 2 x^4
    let mut g: Graph<Tensor, Op> = Graph::new();
    let x = Variable::new(&mut g, scalar(2.0));
    let a = square(&mut g, &x);
    let b = square(&mut g, &a);
    let c = square(&mut g, &a);
    let y = add(&mut g, &b, &c).unwrap();
    y.backward(&mut g).unwrap();
    assert_eq!(value_of(y.data(&g)), 32.0);
    assert_eq!(grad_of(&g, &a), 16.0);
    assert_eq!(grad_of(&g, &x), 64.0);
}

#[test]
fn shallow_and_deep_paths_meet_in_either_order_of_construction() {
    // z = a + exp(square(a)) with a = x^2; dz/da = 1 + 2 a exp(a^2)
    let v: f64 = 0.7;
    let a0 = v * v;
    let expected_a = 1.0 + 2.0 * a0 * (a0 * a0).exp();
    let expected_x = expected_a * 2.0 * v;

    let mut g: Graph<Tensor, Op> = Graph::new();
    let x = Variable::new(&mut g, scalar(v));
    let a = square(&mut g, &x);
    let deep = square(&mut g, &a);
    let deep = exp(&mut g, &deep);
    let z = add(&mut g, &a, &deep).unwrap();
    z.backward(&mut g).unwrap();
    assert!((grad_of(&g, &a) - expected_a).abs() < 1e-12);
    assert!((grad_of(&g, &x) - expected_x).abs() < 1e-12);

    let mut h: Graph<Tensor, Op> = Graph::new();
    let x = Variable::new(&mut h, scalar(v));
    let a = square(&mut h, &x);
    let deep = square(&mut h, &a);
    let deep = exp(&mut h, &deep);
    let z = add(&mut h, &deep, &a).unwrap();
    z.backward(&mut h).unwrap();
    assert!((grad_of(&h, &a) - expected_a).abs() < 1e-12);
    assert!((grad_of(&h, &x) - expected_x).abs() < 1e-12);
}

#[test]
fn an_older_node_of_a_higher_generation_goes_first() {
    // The deep chain is built before the leaf that joins it: positions and
    // generations disagree, and the pass goes by generation.
    let mut g: Graph<Tensor, Op> = Graph::new();
    let x = Variable::new(&mut g, scalar(1.5));
    let a = square(&mut g, &x);
    let b = square(&mut g, &a);
    let w = Variable::new(&mut g, scalar(4.0));
    let c = add(&mut g, &a, &w).unwrap();
    let z = add(&mut g, &b, &c).unwrap();
    assert_eq!(a.generation(&g), 1);
    assert_eq!(b.generation(&g), 2);
    assert_eq!(w.generation(&g), 0);
    assert_eq!(c.generation(&g), 2);
    assert_eq!(z.generation(&g), 3);
    z.backward(&mut g).unwrap();
    // z = x^4 + x^2 + w
    assert_eq!(grad_of(&g, &w), 1.0);
    assert_eq!(grad_of(&g, &a), 2.0 * 2.25 + 1.0);
    assert_eq!(grad_of(&g, &x), (2.0 * 2.25 + 1.0) * 3.0);
}

#[test]
fn backward_on_a_leaf_seeds_it_and_stops() {
    let mut g: Graph<Tensor, Op> = Graph::new();
    let x = Variable::new(&mut g, scalar(7.0));
    let other = Variable::new(&mut g, scalar(1.0));
    assert!(x.is_leaf(&g));
    assert_eq!(x.generation(&g), 0);
    assert_eq!(x.backward(&mut g), Ok(()));
    assert_eq!(grad_of(&g, &x), 1.0);
    assert!(other.grad(&g).is_none());
}

#[test]
fn a_node_that_the_root_does_not_depend_on_keeps_no_gradient() {
    let mut g: Graph<Tensor, Op> = Graph::new();
    let x = Variable::new(&mut g, scalar(2.0));
    let y = square(&mut g, &x);
    let aside = exp(&mut g, &x);
    let beyond = square(&mut g, &y);
    y.backward(&mut g).unwrap();
    assert_eq!(grad_of(&g, &x), 4.0);
    assert!(aside.grad(&g).is_none());
    assert!(beyond.grad(&g).is_none());
}

#[test]
fn a_second_pass_adds_to_what_the_first_left() {
    let mut g: Graph<Tensor, Op> = Graph::new();
    let x = Variable::new(&mut g, scalar(3.0));
    let y = square(&mut g, &x);
    y.backward(&mut g).unwrap();
    assert_eq!(grad_of(&g, &x), 6.0);
    y.backward(&mut g).unwrap();
    assert_eq!(grad_of(&g, &y), 1.0);
    assert_eq!(grad_of(&g, &x), 12.0);
    x.clear_grad(&mut g);
    y.clear_grad(&mut g);
    assert!(x.grad(&g).is_none());
    y.backward(&mut g).unwrap();
    assert_eq!(grad_of(&g, &x), 6.0);
}

#[test]
fn a_seeded_root_keeps_its_seed() {
    let mut g: Graph<Tensor, Op> = Graph::new();
    let x = Variable::new(&mut g, scalar(3.0));
    let y = square(&mut g, &x);
    y.seed_grad(&mut g, scalar(5.0));
    y.backward(&mut g).unwrap();
    assert_eq!(grad_of(&g, &y), 5.0);
    assert_eq!(grad_of(&g, &x), 30.0);
}

#[test]
fn arrays_are_seeded_with_ones_of_their_shape() {
    let mut g: Graph<Tensor, Op> = Graph::new();
    let x = Variable::new(&mut g, Tensor(arr2(&[[1.0, 2.0], [3.0, 4.0]]).into_dyn()));
    let y = square(&mut g, &x);
    y.backward(&mut g).unwrap();
    assert_eq!(y.data(&g).0, arr2(&[[1.0, 4.0], [9.0, 16.0]]).into_dyn());
    assert_eq!(y.grad(&g).unwrap().0, arr2(&[[1.0, 1.0], [1.0, 1.0]]).into_dyn());
    assert_eq!(x.grad(&g).unwrap().0, arr2(&[[2.0, 4.0], [6.0, 8.0]]).into_dyn());
}

#[test]
fn generations_count_from_the_leaves() {
    let mut g: Graph<Tensor, Op> = Graph::new();
    assert_eq!(g.len(), 0);
    let x = Variable::new(&mut g, scalar(1.0));
    let y = Variable::new(&mut g, scalar(2.0));
    let a = square(&mut g, &x);
    let b = exp(&mut g, &a);
    let c = add(&mut g, &b, &y).unwrap();
    let d = add(&mut g, &x, &y).unwrap();
    assert_eq!(x.generation(&g), 0);
    assert_eq!(y.generation(&g), 0);
    assert_eq!(a.generation(&g), 1);
    assert_eq!(b.generation(&g), 2);
    assert_eq!(c.generation(&g), 3);
    assert_eq!(d.generation(&g), 1);
    assert!(!c.is_leaf(&g));
    assert_eq!(g.len(), 6);
    assert_eq!(c.index(), 4);
    assert!(g.holds(&d));
    let mut h: Graph<Tensor, Op> = Graph::new();
    let only = Variable::new(&mut h, scalar(0.0));
    assert!(h.holds(&only));
    assert!(!h.holds(&d));
}

#[test]
fn adding_two_shapes_is_refused() {
    let mut g: Graph<Tensor, Op> = Graph::new();
    let x = Variable::new(&mut g, scalar(1.0));
    let y = Variable::new(&mut g, Tensor(arr1(&[1.0, 2.0]).into_dyn()));
    assert_eq!(add(&mut g, &x, &y), Err(Error::ShapeMismatch));
    assert_eq!(g.len(), 2);
}

#[test]
fn applying_to_the_wrong_number_of_inputs_is_refused() {
    let mut g: Graph<Tensor, Op> = Graph::new();
    let x = Variable::new(&mut g, scalar(1.0));
    assert_eq!(g.apply(Op::Add, &[x]), Err(Error::ArityMismatch));
    assert_eq!(g.apply(Op::Square, &[x, x]), Err(Error::ArityMismatch));
    assert_eq!(g.apply(Op::Exp, &[]), Err(Error::ArityMismatch));
    assert_eq!(g.len(), 1);
    let y = g.apply(Op::Square, &[x]).unwrap();
    assert_eq!(y.index(), 1);
}

/// An operation of one input that misbehaves on the way back.
#[derive(Clone, Copy, Debug, PartialEq)]
enum Faulty {
    /// Hands back two gradients for its one input.
    TooMany,
    /// Hands back none.
    TooFew,
    /// Hands back a gradient of another shape.
    Reshaped,
    /// Gives up on the way back.
    Declines,
    /// Behaves: the identity.
    Sound,
}

impl Operation for Faulty {
    fn arity(&self) -> usize {
        1
    }
}

impl Function<Tensor> for Faulty {
    fn forward(&self, xs: &Vec<&Tensor>) -> Option<Tensor> {
        Some(xs[0].clone())
    }

    fn backward(&self, _xs: &Vec<&Tensor>, gy: &Tensor) -> Option<Vec<Tensor>> {
        match self {
            Faulty::TooMany => Some(vec![gy.clone(), gy.clone()]),
            Faulty::TooFew => Some(vec![]),
            Faulty::Reshaped => Some(vec![Tensor(arr1(&[1.0, 1.0]).into_dyn())]),
            Faulty::Declines => None,
            Faulty::Sound => Some(vec![gy.clone()]),
        }
    }
}

fn fails_with(op: Faulty) -> Result<(), Error> {
    let mut g: Graph<Tensor, Faulty> = Graph::new();
    let x = Variable::new(&mut g, scalar(2.0));
    let a = g.apply(Faulty::Sound, &[x]).unwrap();
    let b = g.apply(op, &[a]).unwrap();
    let y = g.apply(Faulty::Sound, &[b]).unwrap();
    let r = y.backward(&mut g);
    if r.is_err() {
        // a failed pass leaves the graph as it was
        assert!(y.grad(&g).is_none());
        assert!(b.grad(&g).is_none());
        assert!(a.grad(&g).is_none());
        assert!(x.grad(&g).is_none());
    } else {
        assert_eq!(x.grad(&g).unwrap(), &scalar(1.0));
    }
    r
}

#[test]
fn a_wrong_number_of_gradients_is_refused() {
    assert_eq!(fails_with(Faulty::TooMany), Err(Error::ArityMismatch));
    assert_eq!(fails_with(Faulty::TooFew), Err(Error::ArityMismatch));
    assert_eq!(fails_with(Faulty::Sound), Ok(()));
}

#[test]
fn a_gradient_of_another_shape_is_refused() {
    assert_eq!(fails_with(Faulty::Reshaped), Err(Error::ShapeMismatch));
    assert_eq!(fails_with(Faulty::Declines), Err(Error::ShapeMismatch));
}

#[test]
fn a_seed_of_another_shape_cannot_be_multiplied() {
    let mut g: Graph<Tensor, Op> = Graph::new();
    let x = Variable::new(&mut g, scalar(3.0));
    let y = square(&mut g, &x);
    y.seed_grad(&mut g, Tensor(arr1(&[1.0, 2.0]).into_dyn()));
    assert_eq!(y.backward(&mut g), Err(Error::ShapeMismatch));
    assert!(x.grad(&g).is_none());
}

/// A value without a value of ones.
#[derive(Clone, Debug, PartialEq)]
struct Seedless(i32);

impl Value for Seedless {
    fn same_shape(&self, _other: &Self) -> bool {
        true
    }

    fn ones_like(&self) -> Option<Self> {
        None
    }

    fn plus(&self, rhs: &Self) -> Option<Self> {
        Some(Seedless(self.0 + rhs.0))
    }
}

/// Doubles its input.
struct Double;

impl Operation for Double {
    fn arity(&self) -> usize {
        1
    }
}

impl Function<Seedless> for Double {
    fn forward(&self, xs: &Vec<&Seedless>) -> Option<Seedless> {
        Some(Seedless(2 * xs[0].0))
    }

    fn backward(&self, _xs: &Vec<&Seedless>, gy: &Seedless) -> Option<Vec<Seedless>> {
        Some(vec![Seedless(2 * gy.0)])
    }
}

#[test]
fn a_root_without_ones_cannot_be_seeded() {
    let mut g: Graph<Seedless, Double> = Graph::new();
    let x = Variable::new(&mut g, Seedless(5));
    let y = g.apply(Double, &[x]).unwrap();
    assert_eq!(y.data(&g), &Seedless(10));
    assert_eq!(y.backward(&mut g), Err(Error::MissingSeed));
    assert!(x.grad(&g).is_none());
    y.seed_grad(&mut g, Seedless(1));
    assert_eq!(y.backward(&mut g), Ok(()));
    assert_eq!(x.grad(&g), Some(&Seedless(2)));
    let z = g.apply(Double, &[y]).unwrap();
    z.seed_grad(&mut g, Seedless(1));
    z.backward(&mut g).unwrap();
    assert_eq!(y.grad(&g), Some(&Seedless(3)));
    assert_eq!(x.grad(&g), Some(&Seedless(8)));
}

#[test]
fn the_operations_know_their_arity() {
    assert_eq!(Op::Square.arity(), 1);
    assert_eq!(Op::Exp.arity(), 1);
    assert_eq!(Op::Add.arity(), 2);
}

#[test]
fn an_operation_declines_another_number_of_inputs() {
    let a = scalar(2.0);
    let b = scalar(5.0);
    let gy = scalar(1.0);
    let none: Vec<&Tensor> = vec![];
    let one = vec![&a];
    let two = vec![&a, &b];
    assert_eq!(Op::Square.forward(&one), Some(scalar(4.0)));
    assert_eq!(Op::Square.forward(&two), None);
    assert_eq!(Op::Square.forward(&none), None);
    assert_eq!(Op::Exp.forward(&one), Some(scalar(2.0_f64.exp())));
    assert_eq!(Op::Exp.forward(&two), None);
    assert_eq!(Op::Add.forward(&two), Some(scalar(7.0)));
    assert_eq!(Op::Add.forward(&one), None);
    assert_eq!(Op::Square.backward(&one, &gy), Some(vec![scalar(4.0)]));
    assert_eq!(Op::Square.backward(&two, &gy), None);
    assert_eq!(Op::Exp.backward(&one, &gy), Some(vec![scalar(2.0_f64.exp())]));
    assert_eq!(Op::Exp.backward(&none, &gy), None);
    assert_eq!(Op::Add.backward(&two, &gy), Some(vec![scalar(1.0), scalar(1.0)]));
    assert_eq!(Op::Add.backward(&one, &gy), None);
}

#[test]
fn the_gradient_of_a_square_scales_with_the_seed() {
    let x = Tensor(arr1(&[1.0, -2.0, 3.0]).into_dyn());
    let gy = Tensor(arr1(&[1.0, 10.0, 100.0]).into_dyn());
    let gxs = Op::Square.backward(&vec![&x], &gy).unwrap();
    assert_eq!(gxs, vec![Tensor(arr1(&[2.0, -40.0, 600.0]).into_dyn())]);
    let misfit = scalar(1.0);
    assert_eq!(Op::Square.backward(&vec![&x], &misfit), None);
}

#[test]
fn an_operation_without_inputs_is_a_node_of_generation_zero() {
    /// Gives the constant 3 and takes no input.
    struct Three;
    impl Operation for Three {
        fn arity(&self) -> usize {
            0
        }
    }
    impl Function<Tensor> for Three {
        fn forward(&self, _xs: &Vec<&Tensor>) -> Option<Tensor> {
            Some(scalar(3.0))
        }

        fn backward(&self, _xs: &Vec<&Tensor>, _gy: &Tensor) -> Option<Vec<Tensor>> {
            Some(vec![])
        }
    }
    let mut g: Graph<Tensor, Three> = Graph::new();
    let c = g.apply(Three, &[]).unwrap();
    assert!(!c.is_leaf(&g));
    assert_eq!(c.generation(&g), 0);
    assert_eq!(c.backward(&mut g), Ok(()));
    assert_eq!(c.grad(&g), Some(&scalar(1.0)));
}

#[test]
fn a_long_chain_of_doublings() {
    let mut g: Graph<Tensor, Op> = Graph::new();
    let x = Variable::new(&mut g, scalar(1.0));
    let mut y = x;
    for _ in 0..50 {
        y = add(&mut g, &y, &y).unwrap();
    }
    assert_eq!(y.generation(&g), 50);
    assert_eq!(value_of(y.data(&g)), 2.0_f64.powi(50));
    y.backward(&mut g).unwrap();
    assert_eq!(grad_of(&g, &x), 2.0_f64.powi(50));
    assert_eq!(grad_of(&g, &y), 1.0);
}

#[test]
fn a_leaf_with_many_consumers_gathers_them_all() {
    let mut g: Graph<Tensor, Op> = Graph::new();
    let x = Variable::new(&mut g, scalar(3.0));
    let mut total = square(&mut g, &x);
    for _ in 1..200 {
        let term = square(&mut g, &x);
        total = add(&mut g, &total, &term).unwrap();
    }
    assert_eq!(value_of(total.data(&g)), 200.0 * 9.0);
    total.backward(&mut g).unwrap();
    assert_eq!(grad_of(&g, &x), 200.0 * 6.0);
}

/// A value whose ones come out one element too long.
#[derive(Clone, Debug, PartialEq)]
struct Lopsided(usize);

impl Value for Lopsided {
    fn same_shape(&self, other: &Self) -> bool {
        self.0 == other.0
    }

    fn ones_like(&self) -> Option<Self> {
        Some(Lopsided(self.0 + 1))
    }

    fn plus(&self, rhs: &Self) -> Option<Self> {
        if self.0 == rhs.0 {
            Some(self.clone())
        } else {
            None
        }
    }
}

/// Hands its input on, both ways.
struct Keep;

impl Operation for Keep {
    fn arity(&self) -> usize {
        1
    }
}

impl Function<Lopsided> for Keep {
    fn forward(&self, xs: &Vec<&Lopsided>) -> Option<Lopsided> {
        Some(xs[0].clone())
    }

    fn backward(&self, _xs: &Vec<&Lopsided>, gy: &Lopsided) -> Option<Vec<Lopsided>> {
        Some(vec![gy.clone()])
    }
}

#[test]
fn ones_of_another_shape_are_no_seed() {
    let mut g: Graph<Lopsided, Keep> = Graph::new();
    let x = Variable::new(&mut g, Lopsided(3));
    let y = g.apply(Keep, &[x]).unwrap();
    assert_eq!(y.backward(&mut g), Err(Error::MissingSeed));
    assert_eq!(x.backward(&mut g), Err(Error::MissingSeed));
    assert!(y.grad(&g).is_none());
    assert!(x.grad(&g).is_none());
    y.seed_grad(&mut g, Lopsided(3));
    assert_eq!(y.backward(&mut g), Ok(()));
    assert_eq!(x.grad(&g), Some(&Lopsided(3)));
}
