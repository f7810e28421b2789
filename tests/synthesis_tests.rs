use ilnlp::error::IlnlpError;
use ilnlp::ilasp::{ILExample, ILTaskBuilder};
use ilnlp::literal::{BodyLiteral, LitBuilder, Literal, Rule};
use ilnlp::set::SortedSet;
use ilnlp::synth::Example;
use ilnlp::task::Task;

fn lit(p: &str) -> Literal {
    Literal::new(p.to_string(), vec![])
}

fn set(v: Vec<usize>) -> SortedSet {
    SortedSet::new(v)
}

fn triple(e: &ILExample) -> (Vec<usize>, Vec<usize>, Vec<usize>) {
    (e.incl().clone(), e.excl().clone(), e.ctx().clone())
}

#[test]
fn registry_round_trip() {
    let mut b = LitBuilder::new();
    let l = Literal::new("edge".to_string(), vec!["a".to_string(), "X".to_string()]);
    let id = b.create_literal(l.clone());
    assert_eq!(id, 1);
    assert!(b.get_literal(id).unwrap() == l);
    let again = b.create_literal(l.clone());
    assert_eq!(again, id);
    let other = b.create_literal(lit("p"));
    assert_eq!(other, 2);
    assert_eq!(b.len(), 2);
}

#[test]
fn invalid_literal_ids() {
    let mut b = LitBuilder::new();
    b.create_literal(lit("p"));
    assert_eq!(b.get_literal(0), Err(IlnlpError::InvalidLit(0)));
    assert_eq!(b.get_literal(2), Err(IlnlpError::InvalidLit(2)));
    let got = b.get_literals(&[0, 1, 5, 1]);
    assert_eq!(got.len(), 2);
    assert!(got[0] == lit("p"));
}

#[test]
fn empty_output_gives_one_negative() {
    let e = Example { input: set(vec![2, 5]), output: vec![] };
    let mut b = ILTaskBuilder::new();
    e.compute_example(&set(vec![1, 2, 5, 7]), &mut b);
    let t = b.build();
    assert_eq!(t.pos_examples().len(), 0);
    assert_eq!(t.neg_examples().len(), 1);
    assert_eq!(triple(&t.neg_examples()[0]), (vec![], vec![], vec![2, 5]));
    assert_eq!(t.search_space().positive_body(), &vec![2, 5]);
    assert!(t.search_space().head().is_empty());
}

#[test]
fn spurious_minimization_two_singletons() {
    // a = 1, b = 2, c = 3
    let e = Example { input: set(vec![]), output: vec![set(vec![1]), set(vec![2])] };
    let mut b = ILTaskBuilder::new();
    e.compute_example(&set(vec![1, 2, 3]), &mut b);
    let t = b.build();
    let pos: Vec<_> = t.pos_examples().iter().map(triple).collect();
    assert_eq!(pos, vec![(vec![1], vec![2, 3], vec![]), (vec![2], vec![1, 3], vec![])]);
    let neg: Vec<_> = t.neg_examples().iter().map(triple).collect();
    assert!(neg.contains(&(vec![3], vec![], vec![])));
    assert!(neg.iter().all(|n| n.0 != vec![1, 2]));
    assert_eq!(neg.len(), 1);
    assert_eq!(t.search_space().head(), &vec![1, 2]);
    assert_eq!(t.search_space().general_body(), &vec![1, 2]);
}

#[test]
fn spurious_candidates_become_negatives() {
    // outputs {1,2} and {3,4}: the crossing pairs are spurious answer sets
    let e = Example { input: set(vec![]), output: vec![set(vec![1, 2]), set(vec![3, 4])] };
    let mut b = ILTaskBuilder::new();
    e.compute_example(&set(vec![1, 2, 3, 4]), &mut b);
    let t = b.build();
    let neg: Vec<_> = t.neg_examples().iter().map(triple).collect();
    assert_eq!(
        neg,
        vec![
            (vec![1, 3], vec![2, 4], vec![]),
            (vec![1, 4], vec![2, 3], vec![]),
            (vec![2, 3], vec![1, 4], vec![]),
            (vec![2, 4], vec![1, 3], vec![]),
        ]
    );
}

#[test]
fn overlapping_outputs_leave_one_spurious_set() {
    // outputs {1,2} and {2,3}: only {1,3} is nested in neither
    let e = Example { input: set(vec![]), output: vec![set(vec![1, 2]), set(vec![2, 3])] };
    let mut b = ILTaskBuilder::new();
    e.compute_example(&set(vec![1, 2, 3]), &mut b);
    let t = b.build();
    let neg: Vec<_> = t.neg_examples().iter().map(triple).collect();
    assert_eq!(neg, vec![(vec![1, 3], vec![2], vec![])]);
}

#[test]
fn larger_candidates_share_the_smaller_ones_negative() {
    // outputs {1,2,3} and {4,5}: the cross pairs are candidates, and so are
    // the triples with two literals of the first output and one of the second
    let e = Example { input: set(vec![]), output: vec![set(vec![1, 2, 3]), set(vec![4, 5])] };
    let mut b = ILTaskBuilder::new();
    e.compute_example(&set(vec![1, 2, 3, 4, 5]), &mut b);
    let t = b.build();
    let neg: Vec<_> = t.neg_examples().iter().map(triple).collect();
    assert_eq!(
        neg,
        vec![
            (vec![1, 4], vec![2, 5], vec![]),
            (vec![1, 4], vec![3, 5], vec![]),
            (vec![1, 5], vec![2, 4], vec![]),
            (vec![1, 5], vec![3, 4], vec![]),
            (vec![2, 4], vec![1, 5], vec![]),
            (vec![2, 5], vec![1, 4], vec![]),
            (vec![3, 4], vec![1, 2, 5], vec![]),
            (vec![3, 5], vec![1, 2, 4], vec![]),
        ]
    );
}

#[test]
fn uncovered_literal_keeps_context() {
    // every candidate over {2,3,4} is nested in an output, so only the
    // uncovered literal 1 yields a negative example
    let e = Example {
        input: set(vec![9]),
        output: vec![set(vec![2, 9]), set(vec![3, 9]), set(vec![4, 9])],
    };
    let mut b = ILTaskBuilder::new();
    e.compute_example(&set(vec![1, 2, 3, 4, 9]), &mut b);
    let t = b.build();
    let neg: Vec<_> = t.neg_examples().iter().map(triple).collect();
    assert_eq!(neg, vec![(vec![1], vec![], vec![9])]);
    let pos: Vec<_> = t.pos_examples().iter().map(triple).collect();
    assert_eq!(pos[0], (vec![2, 9], vec![1, 3, 4], vec![9]));
    assert_eq!(t.search_space().head(), &vec![2, 3, 4]);
    assert_eq!(t.search_space().positive_body(), &vec![9]);
}

#[test]
fn compatible_disjoint_examples() {
    let mut t = Task::new();
    t.push_example(Example { input: set(vec![1]), output: vec![set(vec![1, 2])] });
    t.push_example(Example { input: set(vec![3]), output: vec![set(vec![3, 4])] });
    assert_eq!(t.check_compatibility(&vec![vec![set(vec![1])], vec![set(vec![3])]]), Ok(()));
}

#[test]
fn fewer_than_two_examples_are_compatible() {
    let mut t = Task::new();
    assert_eq!(t.check_compatibility(&vec![]), Ok(()));
    t.push_example(Example { input: set(vec![]), output: vec![set(vec![1])] });
    assert_eq!(t.check_compatibility(&vec![vec![]]), Ok(()));
}

#[test]
fn condition_one_violation() {
    let mut t = Task::new();
    t.push_example(Example { input: set(vec![]), output: vec![set(vec![1, 2])] });
    t.push_example(Example { input: set(vec![1]), output: vec![set(vec![1])] });
    let models = vec![vec![set(vec![])], vec![set(vec![1])]];
    assert_eq!(t.check_compatibility(&models), Err(IlnlpError::IncompatibleOne));
}

fn two_one_task() -> Task {
    let mut t = Task::new();
    t.push_example(Example { input: set(vec![1]), output: vec![set(vec![1, 2])] });
    t.push_example(Example { input: set(vec![]), output: vec![set(vec![3])] });
    t
}

#[test]
fn condition_two_violation() {
    let t = two_one_task();
    let models = vec![vec![set(vec![1])], vec![set(vec![1])]];
    assert_eq!(t.check_compatibility(&models), Err(IlnlpError::IncompatibleTwo));
}

#[test]
fn condition_three_violation() {
    let t = two_one_task();
    let models = vec![vec![set(vec![1])], vec![set(vec![3]), set(vec![1, 3])]];
    assert_eq!(t.check_compatibility(&models), Err(IlnlpError::IncompatibleThree));
}

#[test]
fn no_model_error() {
    let t = two_one_task();
    let models = vec![vec![set(vec![1])], vec![]];
    assert_eq!(t.check_compatibility(&models), Err(IlnlpError::NoModel));
}

#[test]
fn end_to_end_single_fact() {
    let mut t = Task::new();
    t.push_background(Rule { head: Some(lit("p")), body: vec![] });
    let p = t.create_literal(lit("p"));
    t.push_example(Example { input: set(vec![]), output: vec![set(vec![p])] });
    let task = t.ilas(&vec![lit("p")]);
    assert_eq!(task.pos_examples().len(), 1);
    assert_eq!(task.pos_examples()[0].incl(), &vec![p]);
    assert!(task.pos_examples()[0].excl().is_empty());
    assert!(task.neg_examples().is_empty());
    // the output's additions to the (empty) input form the head vocabulary
    assert_eq!(task.search_space().head(), &vec![p]);
    assert_eq!(task.search_space().general_body(), &vec![p]);
    assert!(task.search_space().positive_body().is_empty());
    assert_eq!(task.background().len(), 1);
}

#[test]
fn universe_and_stats() {
    let mut t = Task::new();
    let a = t.create_literal(Literal::new("q".to_string(), vec!["a".to_string()]));
    let grounded = vec![
        Literal::new("q".to_string(), vec!["b".to_string()]),
        Literal::new("q".to_string(), vec!["a".to_string()]),
        lit("r"),
        lit("r"),
    ];
    let u = t.compute_universe(&grounded);
    assert_eq!(u.iter().to_vec(), vec![a, 2, 3]);
    assert_eq!(t.compute_universe_stats(&u), (3, 2));
    assert!(t.get_literal(3).unwrap() == lit("r"));
}

#[test]
fn definite_rules_skip_negation() {
    let mut t = Task::new();
    t.push_background(Rule {
        head: Some(lit("p")),
        body: vec![BodyLiteral::Literal { literal: lit("q"), negated: true }],
    });
    t.push_background(Rule {
        head: Some(lit("q")),
        body: vec![BodyLiteral::Literal { literal: lit("r"), negated: false }],
    });
    let d = t.get_definite_rules();
    assert_eq!(d.len(), 1);
    assert!(d[0].head.as_ref().unwrap() == &lit("q"));
}
