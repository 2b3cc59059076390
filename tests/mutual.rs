use tramp::{rec_call, rec_ret, tramp, Rec};

// Not the greatest way of computing "is even" or "is odd".
#[derive(Clone, Copy, Debug, PartialEq)]
enum Pending {
    IsEven(u128),
    IsOdd(u128),
}

fn is_even_rec(x: u128) -> Rec<bool, Pending> {
    if x > 0 {
        rec_call(Pending::IsOdd(x - 1))
    } else {
        rec_ret(true)
    }
}

fn is_odd_rec(x: u128) -> Rec<bool, Pending> {
    if x > 0 {
        rec_call(Pending::IsEven(x - 1))
    } else {
        rec_ret(false)
    }
}

fn resume(p: Pending) -> Rec<bool, Pending> {
    match p {
        Pending::IsEven(x) => is_even_rec(x),
        Pending::IsOdd(x) => is_odd_rec(x),
    }
}

fn is_even(x: u128) -> bool {
    tramp(resume, is_even_rec(x))
}

fn is_odd(x: u128) -> bool {
    tramp(resume, is_odd_rec(x))
}

#[test]
fn test_oddness() {
    for i in 10000..10050 {
        assert_eq!(is_even(i), i & 1 == 0);
        assert_eq!(is_odd(i), i & 1 == 1);
    }
}

#[test]
fn oddness_of_small_values() {
    assert!(is_even(0));
    assert!(!is_odd(0));
    assert!(is_odd(1));
    assert!(!is_even(1));
}

#[test]
fn long_chain_keeps_the_stack_flat() {
    assert!(is_even(2_000_000));
    assert!(is_odd(2_000_001));
}
