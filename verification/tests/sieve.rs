use xensieve::Residual;
use xensieve::Sieve;
use xensieve::SieveNode;

#[test]
fn lib_test_sieve_new_a() {
    let s1 = Sieve::new("3@1").unwrap();
    assert_eq!(s1.to_text(), "Sieve{3@1}");
}

#[test]
fn lib_test_sieve_new_b() {
    let s1 = Sieve::new("3@4").unwrap();
    assert_eq!(s1.to_text(), "Sieve{3@1}");
}

#[test]
fn test_sieve_new_c() {
    let s1 = Sieve::new("5@5").unwrap();
    assert_eq!(s1.to_text(), "Sieve{5@0}");
}

#[test]
fn test_sieve_new_d() {
    let s1 = Sieve::new("0@5").unwrap();
    assert_eq!(s1.to_text(), "Sieve{0@0}");
}

#[test]
fn test_sieve_contains_a() {
    let r1 = Residual::new(3, 0);
    let s1 = SieveNode::Unit(r1);

    let pos = vec![-3, -2, -1, 0, 1];
    let val = vec![true, false, false, true, false];
    for (p, b) in pos.iter().zip(val.iter()) {
        assert_eq!(s1.contains(*p), *b);
    }
}

#[test]
fn test_sieve_contains_b() {
    let r1 = Residual::new(3, 0);
    let r2 = Residual::new(3, 1);
    let s1 = SieveNode::Union(Box::new(SieveNode::Unit(r1)), Box::new(SieveNode::Unit(r2)));

    assert_eq!(s1.contains(-2), true);
    assert_eq!(s1.contains(-1), false);
    assert_eq!(s1.contains(0), true);
    assert_eq!(s1.contains(1), true);
    assert_eq!(s1.contains(2), false);
    assert_eq!(s1.contains(3), true);
    assert_eq!(s1.contains(4), true);
}

//------------------------------------------------------------------------------

#[test]
fn test_sieve_operators_a() {
    let s1 = Sieve::new("3@1").unwrap();
    let s2 = Sieve::new("4@0").unwrap();
    let s3 = s1.union(&s2);

    assert_eq!(s3.to_text(), "Sieve{3@1|4@0}");
}

#[test]
fn test_sieve_operators_b() {
    let s1 = Sieve::new("3@1").unwrap();
    let s2 = Sieve::new("4@0").unwrap();
    let s3 = (&s1).union(&s2);

    assert_eq!(s3.to_text(), "Sieve{3@1|4@0}");
}

#[test]
fn test_sieve_operators_c() {
    let s1 = Sieve::new("3@1").unwrap();
    let s2 = Sieve::new("4@0").unwrap();
    let s3 = (&s1).intersect(&s2);

    assert_eq!(s3.to_text(), "Sieve{3@1&4@0}");
}

#[test]
fn test_sieve_operators_d() {
    let s1 = Sieve::new("3@1").unwrap();
    let s2 = Sieve::new("4@0").unwrap();
    let s3 = (&s1).symmetric_difference(&s2);

    assert_eq!(s3.to_text(), "Sieve{3@1^4@0}");
}

#[test]
fn test_sieve_operators_e() {
    let s1 = Sieve::new("3@1").unwrap();
    let s3 = (&s1).invert();
    assert_eq!(s3.to_text(), "Sieve{!(3@1)}");
}
