//! The value type of the language: a flat array of integers, with the two
//! verbs that work on it.

use vstd::prelude::*;

verus! {

/// One element of an array. Numbers are the only kind there is so far.
#[derive(Debug, Clone, Copy, PartialEq, Eq)]
pub enum Elem {
    Number(i64),
}

/// An array is an ordered sequence of elements.
pub type Array = Vec<Elem>;

impl Elem {
    /// The integer that the element holds.
    pub open spec fn value(self) -> int {
        match self {
            Elem::Number(n) => n as int,
        }
    }
}

/// The array that holds `n` and nothing else.
pub open spec fn single(n: i64) -> Seq<Elem> {
    seq![Elem::Number(n)]
}

/// The indices `0, 1, .., n - 1` as an array; empty where `n <= 0`.
pub open spec fn indices(n: int) -> Seq<Elem> {
    Seq::new(
        if n > 0 {
            n as nat
        } else {
            0
        },
        |k: int| Elem::Number(k as i64),
    )
}

/// What iota makes of `a`: the indices below its first element. An array
/// without a first element gives `[0]`.
pub open spec fn iota_spec(a: Seq<Elem>) -> Seq<Elem> {
    if a.len() > 0 {
        indices(a[0].value())
    } else {
        single(0)
    }
}

/// The element at index `i`, and 0 where `a` has no such index.
pub open spec fn at_spec(a: Seq<Elem>, i: int) -> int {
    if 0 <= i < a.len() {
        a[i].value()
    } else {
        0
    }
}

/// The number of positions that `a` and `b` share.
pub open spec fn shared_len(a: Seq<Elem>, b: Seq<Elem>) -> nat {
    if a.len() <= b.len() {
        a.len()
    } else {
        b.len()
    }
}

/// Whether every pairwise sum of `a` and `b` is a 64-bit signed integer.
pub open spec fn sums_fit(a: Seq<Elem>, b: Seq<Elem>) -> bool {
    forall|i: int|
        0 <= i < shared_len(a, b) ==> i64::MIN <= #[trigger] a[i].value() + b[i].value()
            <= i64::MAX
}

/// The sums of `a` and `b` position by position, as far as the shorter one
/// reaches. Meant for operands whose sums fit.
pub open spec fn plus_spec(a: Seq<Elem>, b: Seq<Elem>) -> Seq<Elem> {
    Seq::new(shared_len(a, b), |i: int| Elem::Number((a[i].value() + b[i].value()) as i64))
}

/// Addition truncates: the sum is as long as the shorter operand, and each
/// of its elements is the sum of the two elements at its position.
pub proof fn lemma_plus_truncates(a: Seq<Elem>, b: Seq<Elem>)
    requires
        sums_fit(a, b),
    ensures
        plus_spec(a, b).len() == a.len() <= b.len() || plus_spec(a, b).len() == b.len() <= a.len(),
        forall|i: int|
            0 <= i < a.len() && i < b.len() ==> (#[trigger] plus_spec(a, b)[i]).value() == a[i].value()
                + b[i].value(),
{
    assert forall|i: int| 0 <= i < a.len() && i < b.len() implies (#[trigger] plus_spec(
        a,
        b,
    )[i]).value() == a[i].value() + b[i].value() by {
        assert(i64::MIN <= a[i].value() + b[i].value() <= i64::MAX);
    }
}

/// Builds the one-element array `[n]`.
pub fn array_from_i64(n: i64) -> (r: Array)
    ensures
        r@ == single(n),
{
    let mut r: Array = Vec::new();
    r.push(Elem::Number(n));
    assert(r@ =~= single(n));
    r
}

/// Monadic `^`: the indices below the first element of `a`.
pub fn iota(a: Array) -> (r: Array)
    ensures
        r@ == iota_spec(a@),
{
    if a.len() == 0 {
        return array_from_i64(0);
    }
    let n: i64 = match a[0] {
        Elem::Number(n) => n,
    };
    let mut r: Array = Vec::new();
    let mut i: i64 = 0;
    while i < n
        invariant
            0 <= i,
            i <= n || i == 0,
            r@ =~= indices(i as int),
        decreases n - i,
    {
        r.push(Elem::Number(i));
        i += 1;
    }
    assert(r@ =~= indices(n as int));
    r
}

/// The number at index `i` of `a`, or 0 where `i` is not an index of `a`.
pub fn at(a: &Array, i: i64) -> (r: i64)
    ensures
        r == at_spec(a@, i as int),
{
    if i >= 0 && (i as u64) < (a.len() as u64) {
        match a[i as usize] {
            Elem::Number(n) => n,
        }
    } else {
        0
    }
}

/// Tells whether `plus` can add `a` and `b` without leaving the 64-bit range.
pub fn plus_fits(a: &Array, b: &Array) -> (r: bool)
    ensures
        r == sums_fit(a@, b@),
{
    let n: usize = if a.len() <= b.len() {
        a.len()
    } else {
        b.len()
    };
    let mut i: usize = 0;
    while i < n
        invariant
            i <= n,
            n == shared_len(a@, b@),
            forall|k: int|
                0 <= k < i ==> i64::MIN <= #[trigger] a@[k].value() + b@[k].value() <= i64::MAX,
        decreases n - i,
    {
        let x: i64 = match a[i] {
            Elem::Number(x) => x,
        };
        let y: i64 = match b[i] {
            Elem::Number(y) => y,
        };
        if x.checked_add(y).is_none() {
            assert(!(i64::MIN <= a@[i as int].value() + b@[i as int].value() <= i64::MAX));
            return false;
        }
        i += 1;
    }
    true
}

/// Dyadic `+`: adds `a` and `b` position by position and stops where the
/// shorter operand ends.
pub fn plus(a: Array, b: Array) -> (r: Array)
    requires
        sums_fit(a@, b@),
    ensures
        r@ == plus_spec(a@, b@),
        r@.len() == a@.len() <= b@.len() || r@.len() == b@.len() <= a@.len(),
        forall|i: int|
            0 <= i < r@.len() ==> (#[trigger] r@[i]).value() == a@[i].value() + b@[i].value(),
{
    let n: usize = if a.len() <= b.len() {
        a.len()
    } else {
        b.len()
    };
    let mut r: Array = Vec::new();
    let mut i: usize = 0;
    while i < n
        invariant
            i <= n,
            n == shared_len(a@, b@),
            sums_fit(a@, b@),
            r@.len() == i,
            forall|k: int|
                0 <= k < i ==> #[trigger] r@[k] == Elem::Number(
                    (a@[k].value() + b@[k].value()) as i64,
                ),
        decreases n - i,
    {
        let x: i64 = match a[i] {
            Elem::Number(x) => x,
        };
        let y: i64 = match b[i] {
            Elem::Number(y) => y,
        };
        assert(i64::MIN <= a@[i as int].value() + b@[i as int].value() <= i64::MAX);
        r.push(Elem::Number(x + y));
        i += 1;
    }
    assert(r@ =~= plus_spec(a@, b@));
    r
}

} // verus!
