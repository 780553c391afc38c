use neant::cost::bounds::{hbl_bound, hbl_sigma};
use neant::cost::rat::Rat;
use neant::cost::size::Poly;

#[test]
fn product_is_three_halves() {
    // a[i][k], b[k][j], c[i][j] over (i, j, k)
    let (i, j, k) = (1u32, 2u32, 4u32);
    assert_eq!(hbl_sigma(3, &[i | k, k | j, i | j]), Some(Rat::new(3, 2)));
}

#[test]
fn tiled_product_is_still_three_halves() {
    // (ii, jj, kk, i, j, k): a on {ii, i, kk, k}, b on {kk, k, jj, j}, c on {ii, i, jj, j}
    let (ii, jj, kk, i, j, k) = (1u32, 2, 4, 8, 16, 32);
    assert_eq!(hbl_sigma(6, &[ii | i | kk | k, kk | k | jj | j, ii | i | jj | j]), Some(Rat::new(3, 2)));
}

#[test]
fn streams_and_repetition() {
    assert_eq!(hbl_sigma(1, &[1]), Some(Rat::one())); // x[i]
    assert_eq!(hbl_sigma(2, &[1, 2]), Some(Rat::integer(2))); // a[i]·a[j]
    assert_eq!(hbl_sigma(2, &[1]), None); // a repetition loop no reference sees
}

#[test]
fn bytes() {
    let n3 = Poly::var(0).pow(3);
    let b = hbl_bound(&n3, Rat::new(3, 2));
    assert_eq!(b.display(&["n".to_string()]).to_string(), "8·n³/√M − M");
}
