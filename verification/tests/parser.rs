use xensieve::char_to_precedence;
use xensieve::infix_to_postfix;
use xensieve::residual_to_ints;

#[test]
fn test_residual_to_ints_a() {
    assert_eq!(residual_to_ints("3@1").unwrap(), (3, 1))
}

#[test]
fn test_residual_to_ints_b() {
    assert_eq!(residual_to_ints("9@2").unwrap(), (9, 2))
}

#[test]
fn test_residual_to_ints_c() {
    assert_eq!(residual_to_ints("0@5").unwrap(), (0, 5))
}

#[test]
fn test_residual_to_ints_d() {
    assert!(residual_to_ints("0").is_err());
}

#[test]
fn test_residual_to_ints_e() {
    assert!(residual_to_ints("3@wer").is_err());
}

#[test]
fn test_residual_to_ints_f() {
    assert!(residual_to_ints("foo@3").is_err());
}

#[test]
fn test_char_to_precedence_a() {
    assert_eq!(char_to_precedence('!'), 4);
    assert_eq!(char_to_precedence('-'), 0);
    assert_eq!(char_to_precedence('&'), 3);
}

#[test]
fn test_infix_to_postfix_a() {
    let e1 = "!3@1 & 6@2 | !(10@0 | 2@0 | 3@0 )";
    let px1 = infix_to_postfix(e1).unwrap();
    assert_eq!(
        px1.iter().collect::<Vec<_>>(),
        vec!["3@1", "!", "6@2", "&", "10@0", "2@0", "|", "3@0", "|", "!", "|"]
    );
}

#[test]
fn test_infix_to_postfix_b() {
    let e1 = "10@0 | 2@0 | 3@0";
    let px1 = infix_to_postfix(e1).unwrap();
    assert_eq!(px1.iter().collect::<Vec<_>>(), vec!["10@0", "2@0", "|", "3@0", "|"]);
}

#[test]
fn test_infix_to_postfix_c() {
    let e1 = "!10@0 | !2@0 | !3@0";
    let px1 = infix_to_postfix(e1).unwrap();
    assert_eq!(
        px1.iter().collect::<Vec<_>>(),
        vec!["10@0", "!", "2@0", "!", "|", "3@0", "!", "|"]
    );
}

#[test]
fn test_infix_to_postfix_d() {
    let e1 = "(10@0 & !2@0) | (!3@0 & 4@2)";
    let px1 = infix_to_postfix(e1).unwrap();
    assert_eq!(
        px1.iter().collect::<Vec<_>>(),
        vec!["10@0", "2@0", "!", "&", "3@0", "!", "4@2", "&", "|"]
    );
}

#[test]
fn test_infix_to_postfix_e() {
    let e1 = "10@0 ^ 10@9";
    let px1 = infix_to_postfix(e1).unwrap();
    assert_eq!(px1.iter().collect::<Vec<_>>(), vec!["10@0", "10@9", "^"]);
}

#[test]
fn test_infix_to_postfix_f() {
    let e1 = "10@0 ^ -10@9";
    assert!(infix_to_postfix(e1).is_err());
}

#[test]
fn test_infix_to_postfix_g() {
    let e1 = "10@0 + 10@9";
    assert!(infix_to_postfix(e1).is_err());
}
