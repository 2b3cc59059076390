use tramp::{rec_call, rec_ret, tramp, Rec};

fn fac_acc(args: (u128, u128)) -> Rec<u128, (u128, u128)> {
    let (n, acc) = args;
    if n > 1 {
        rec_call((n - 1, acc * n))
    } else {
        rec_ret(acc)
    }
}

fn factorial(n: u128) -> u128 {
    tramp(fac_acc, fac_acc((n, 1)))
}

fn fac_plain(n: u128) -> u128 {
    if n > 1 {
        n * fac_plain(n - 1)
    } else {
        1
    }
}

#[test]
fn test_fac() {
    assert_eq!(factorial(5), 120);
}

#[test]
fn fac_of_zero_and_one() {
    assert_eq!(factorial(0), 1);
    assert_eq!(factorial(1), 1);
}

#[test]
fn fac_matches_plain_recursion() {
    for n in 0..30u128 {
        assert_eq!(factorial(n), fac_plain(n));
    }
    assert_eq!(factorial(20), 2_432_902_008_176_640_000);
}
