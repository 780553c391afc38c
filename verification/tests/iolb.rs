use neant::cost::iolb::{parse, to_bytes};

fn names() -> Vec<String> {
    vec!["n".into(), "a.len()".into()]
}

#[test]
fn gemm_bound_in_bytes() {
    // 2·n³/√S words, S = M/8: 16·√8·n³/√M ≈ 45.2548·n³/√M bytes
    let p = to_bytes(&parse("2*n^3*S^(-1/2)", &names()).unwrap());
    assert_eq!(p.display(&names()).to_string(), "45.2548·n³/√M");
}

#[test]
fn linear_and_sums() {
    let p = to_bytes(&parse("2*n+a_n", &names()).unwrap());
    assert_eq!(p.display(&names()).to_string(), "8·a.len() + 16·n");
    let p = to_bytes(&parse("n^2*S^(-1)", &names()).unwrap());
    assert_eq!(p.display(&names()).to_string(), "64·n²/M");
}

#[test]
fn unknown_name_is_refused() {
    assert!(parse("2*m", &names()).is_err());
    assert!(parse("2*a_rows", &names()).is_err());
}
