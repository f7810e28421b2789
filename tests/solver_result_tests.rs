use ilnlp::asp::{compute_models, ground_literals};
use ilnlp::error::IlnlpError;
use ilnlp::literal::{LitBuilder, Literal};

fn lit(p: &str, args: &[&str]) -> Literal {
    Literal::new(p.to_string(), args.iter().map(|a| a.to_string()).collect())
}

#[test]
fn ground_literals_interns_in_order() {
    let mut b = LitBuilder::new();
    b.create_literal(lit("q", &[]));
    let mut result = vec![7];
    ground_literals(&vec![lit("p", &["a"]), lit("q", &[]), lit("p", &["a"])], &mut b, &mut result);
    assert_eq!(result, vec![7, 2, 1, 2]);
    assert_eq!(b.len(), 2);
}

#[test]
fn compute_models_builds_sets() {
    let mut b = LitBuilder::new();
    let models = vec![
        vec![lit("r", &[]), lit("p", &[]), lit("r", &[])],
        vec![lit("p", &[])],
        vec![lit("s", &[])],
    ];
    let sets = compute_models(&models, &mut b, 2).unwrap();
    assert_eq!(sets.len(), 2);
    assert_eq!(sets[0].iter().to_vec(), vec![1, 2]);
    assert_eq!(sets[1].iter().to_vec(), vec![2]);
    assert_eq!(b.len(), 2);
}

#[test]
fn compute_models_without_models_fails() {
    let mut b = LitBuilder::new();
    assert_eq!(compute_models(&vec![], &mut b, 5), Err(IlnlpError::NoModel));
    assert_eq!(compute_models(&vec![vec![lit("p", &[])]], &mut b, 0), Err(IlnlpError::NoModel));
    let empty_model = compute_models(&vec![vec![]], &mut b, 1).unwrap();
    assert!(empty_model[0].is_empty());
}
