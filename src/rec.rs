//! The two-state result of one step, and the driver that runs a chain of them.
use vstd::prelude::*;

verus! {

/// The outcome of one step of a logically tail-recursive function.
pub enum BorrowRec<T, C> {
    /// The computation is done; this is its answer.
    Ret(T),
    /// The computation goes on with the tail call whose arguments are held here.
    Call(C),
}

/// The usual name of a step result.
pub type Rec<T, C> = BorrowRec<T, C>;

/// Every run of the chain that starts at `res`, where each pending call is
/// forced through `step`, makes at most `n` calls, each of them allowed by
/// `step`'s precondition, and ends with the answer `v`.
pub open spec fn yields<T, C, F: Fn(C) -> BorrowRec<T, C>>(
    step: F,
    res: BorrowRec<T, C>,
    v: T,
    n: nat,
) -> bool
    decreases n,
{
    match res {
        BorrowRec::Ret(x) => x == v,
        BorrowRec::Call(c) => {
            &&& n > 0
            &&& call_requires(step, (c,))
            &&& forall|next: BorrowRec<T, C>| #[trigger]
                call_ensures(step, (c,), next) ==> yields(step, next, v, (n - 1) as nat)
        },
    }
}

/// A bound on the number of calls may always be raised.
pub proof fn lemma_yields_more_fuel<T, C, F: Fn(C) -> BorrowRec<T, C>>(
    step: F,
    res: BorrowRec<T, C>,
    v: T,
    n: nat,
    m: nat,
)
    requires
        yields(step, res, v, n),
        n <= m,
    ensures
        yields(step, res, v, m),
    decreases n,
{
    if let BorrowRec::Call(c) = res {
        assert forall|next: BorrowRec<T, C>| #[trigger]
            call_ensures(step, (c,), next) implies yields(step, next, v, (m - 1) as nat) by {
            lemma_yields_more_fuel(step, next, v, (n - 1) as nat, (m - 1) as nat);
        }
    }
}

/// A finished result makes no call: the chain that starts at `Ret(x)` yields
/// `x` and nothing else, so `tramp` returns `x` at once.
pub proof fn lemma_ret_yields<T, C, F: Fn(C) -> BorrowRec<T, C>>(step: F, x: T)
    ensures
        yields(step, BorrowRec::<T, C>::Ret(x), x, 0),
        forall|v: T, n: nat| yields(step, BorrowRec::<T, C>::Ret(x), v, n) ==> v == x,
{
}

/// Trampolining computes what ordinary recursion computes. Let `g` be a
/// tail-recursive function on the arguments `dom`, and `measure` a bound that
/// its recursion lowers. Let `step` perform one step of it: on each argument
/// `d` of `dom` it may be called, and each of its results is either the answer
/// `Ret(g(d))`, or a tail call `Call(e)` on an argument `e` of `dom` with a
/// smaller measure and `g(e) == g(d)`. Then, from a call on `c`, the chain
/// yields `g(c)` within `measure(c) + 1` calls, and so does every first result
/// of `step(c)` within `measure(c)`.
pub proof fn lemma_tail_recursion_yields<T, C, F: Fn(C) -> BorrowRec<T, C>>(
    step: F,
    dom: spec_fn(C) -> bool,
    g: spec_fn(C) -> T,
    measure: spec_fn(C) -> nat,
    c: C,
)
    requires
        dom(c),
        forall|d: C| dom(d) ==> call_requires(step, (d,)),
        forall|d: C, r: BorrowRec<T, C>|
            dom(d) && #[trigger] call_ensures(step, (d,), r) ==> match r {
                BorrowRec::Ret(x) => x == g(d),
                BorrowRec::Call(e) => dom(e) && measure(e) < measure(d) && g(e) == g(d),
            },
    ensures
        yields(step, BorrowRec::<T, C>::Call(c), g(c), measure(c) + 1),
        forall|r: BorrowRec<T, C>| #[trigger]
            call_ensures(step, (c,), r) ==> yields(step, r, g(c), measure(c)),
    decreases measure(c),
{
    assert forall|r: BorrowRec<T, C>| #[trigger]
        call_ensures(step, (c,), r) implies yields(step, r, g(c), measure(c)) by {
        if let BorrowRec::Call(e) = r {
            lemma_tail_recursion_yields(step, dom, g, measure, e);
            lemma_yields_more_fuel(step, r, g(c), measure(e) + 1, measure(c));
        }
    }
}

/// Finishes the computation with the answer `v`.
pub fn rec_ret<T, C>(v: T) -> (r: BorrowRec<T, C>)
    ensures
        r == BorrowRec::<T, C>::Ret(v),
{
    BorrowRec::Ret(v)
}

/// Defers the tail call with arguments `c` instead of making it.
pub fn rec_call<T, C>(c: C) -> (r: BorrowRec<T, C>)
    ensures
        r == BorrowRec::<T, C>::Call(c),
{
    BorrowRec::Call(c)
}

/// Runs the chain that starts at `res`: while the current result is a pending
/// call, forces it through `step`; returns the first answer reached. The loop
/// keeps one result at a time, whatever the length of the chain. The chain
/// must end: a chain of calls that never reaches an answer would make the loop
/// run forever, as the recursion it stands for would.
pub fn tramp<T, C, F: Fn(C) -> BorrowRec<T, C>>(step: F, res: BorrowRec<T, C>) -> (r: T)
    requires
        exists|v: T, n: nat| yields(step, res, v, n),
    ensures
        forall|v: T, n: nat| yields(step, res, v, n) ==> r == v,
        res matches BorrowRec::Ret(x) ==> r == x,
{
    let ghost (v0, n0) = choose|v: T, n: nat| yields(step, res, v, n);
    let ghost start = res;
    let ghost mut k: nat = 0;
    let mut cur = res;
    loop
        invariant
            k <= n0,
            yields(step, cur, v0, (n0 - k) as nat),
            forall|v: T, n: nat| #[trigger]
                yields(step, start, v, n) ==> k <= n && yields(step, cur, v, (n - k) as nat),
            start == res,
            k == 0 ==> cur == start,
            k > 0 ==> start is Call,
        decreases n0 - k,
    {
        let ghost prev = cur;
        match cur {
            BorrowRec::Ret(x) => {
                return x;
            },
            BorrowRec::Call(c) => {
                let next = step(c);
                proof {
                    assert forall|v: T, n: nat| #[trigger]
                        yields(step, start, v, n) implies k + 1 <= n && yields(
                        step,
                        next,
                        v,
                        (n - (k + 1)) as nat,
                    ) by {
                        assert(yields(step, prev, v, (n - k) as nat));
                    }
                    k = k + 1;
                }
                cur = next;
            },
        }
    }
}

} // verus!
