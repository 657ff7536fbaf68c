//! Ring elements: fixed-length coefficient sequences of the polynomial
//! ring, with the even/odd split and interleaving merge that every
//! recursive transform is built on.

use vstd::prelude::*;

verus! {

/// A polynomial of the ring, represented by its coefficient sequence;
/// index `i` holds the coefficient of `x^i`.
#[derive(Clone)]
pub struct Polynomial<T: Copy> {
    pub coefficients: Vec<T>,
}

impl<T: Copy> View for Polynomial<T> {
    type V = Seq<T>;

    open spec fn view(&self) -> Seq<T> {
        self.coefficients@
    }
}

/// The even-indexed coefficients of `s`, in order.
pub open spec fn evens<T>(s: Seq<T>) -> Seq<T> {
    Seq::new((s.len() + 1) / 2, |i: int| s[2 * i])
}

/// The odd-indexed coefficients of `s`, in order.
pub open spec fn odds<T>(s: Seq<T>) -> Seq<T> {
    Seq::new(s.len() / 2, |i: int| s[2 * i + 1])
}

/// `a` and `b` alternating (`a` first); whatever one is longer by is
/// appended at the end.
pub open spec fn interleave<T>(a: Seq<T>, b: Seq<T>) -> Seq<T> {
    Seq::new(
        a.len() + b.len(),
        |i: int|
            if i / 2 < a.len() && i / 2 < b.len() {
                if i % 2 == 0 {
                    a[i / 2]
                } else {
                    b[i / 2]
                }
            } else {
                if a.len() >= b.len() {
                    a[i - b.len()]
                } else {
                    b[i - a.len()]
                }
            },
    )
}

/// Interleaving the even- and odd-indexed halves of an even-length
/// sequence restores the sequence: `merge` inverts `split`.
pub proof fn lemma_interleave_evens_odds<T>(s: Seq<T>)
    requires
        s.len() % 2 == 0,
    ensures
        interleave(evens(s), odds(s)) == s,
{
    assert(interleave(evens(s), odds(s)) =~= s);
}

/// Splitting an interleaving of two equal-length sequences by index
/// parity gives the two sequences back: `split` inverts `merge`.
pub proof fn lemma_evens_odds_interleave<T>(a: Seq<T>, b: Seq<T>)
    requires
        a.len() == b.len(),
    ensures
        evens(interleave(a, b)) == a,
        odds(interleave(a, b)) == b,
{
    assert(evens(interleave(a, b)) =~= a);
    assert(odds(interleave(a, b)) =~= b);
}

impl<T: Copy> Polynomial<T> {
    pub fn new(coefficients: Vec<T>) -> (r: Self)
        ensures
            r@ == coefficients@,
    {
        Self { coefficients }
    }

    pub fn len(&self) -> (r: usize)
        ensures
            r == self@.len(),
    {
        self.coefficients.len()
    }

    /// Deinterleave into the even-indexed and the odd-indexed
    /// coefficients, keeping relative order.
    pub fn split(self) -> (r: (Self, Self))
        requires
            self@.len() % 2 == 0,
        ensures
            r.0@ == evens(self@),
            r.1@ == odds(self@),
    {
        let n = self.coefficients.len();
        let mut even: Vec<T> = Vec::new();
        let mut odd: Vec<T> = Vec::new();
        let mut i: usize = 0;
        while i + 1 < n
            invariant
                n == self@.len(),
                n % 2 == 0,
                i % 2 == 0,
                i <= n,
                even@ == evens(self@).take(i as int / 2),
                odd@ == odds(self@).take(i as int / 2),
            decreases n - i,
        {
            even.push(self.coefficients[i]);
            odd.push(self.coefficients[i + 1]);
            i = i + 2;
            proof {
                assert(even@ =~= evens(self@).take(i as int / 2));
                assert(odd@ =~= odds(self@).take(i as int / 2));
            }
        }
        proof {
            assert(i == n);
            assert(even@ =~= evens(self@));
            assert(odd@ =~= odds(self@));
        }
        (Self { coefficients: even }, Self { coefficients: odd })
    }

    /// Interleave with `other`, this element's coefficients first;
    /// any remainder of the longer operand is appended.
    pub fn merge(self, other: Self) -> (r: Self)
        ensures
            r@ == interleave(self@, other@),
    {
        let a = &self.coefficients;
        let b = &other.coefficients;
        let shorter = if a.len() < b.len() {
            a.len()
        } else {
            b.len()
        };
        let mut result: Vec<T> = Vec::new();
        let mut i: usize = 0;
        while i < shorter
            invariant
                shorter <= a@.len(),
                shorter <= b@.len(),
                shorter == if a@.len() < b@.len() {
                    a@.len() as int
                } else {
                    b@.len() as int
                },
                i <= shorter,
                result@ == interleave(a@, b@).take(2 * i as int),
            decreases shorter - i,
        {
            result.push(a[i]);
            result.push(b[i]);
            i = i + 1;
            proof {
                assert(result@ =~= interleave(a@, b@).take(2 * i as int));
            }
        }
        let mut j: usize = shorter;
        while j < a.len()
            invariant
                shorter <= a@.len(),
                shorter <= b@.len(),
                shorter == if a@.len() < b@.len() {
                    a@.len() as int
                } else {
                    b@.len() as int
                },
                shorter <= j <= a@.len(),
                j > shorter ==> shorter == b@.len(),
                result@ == interleave(a@, b@).take(shorter + j as int),
            decreases a@.len() - j,
        {
            result.push(a[j]);
            j = j + 1;
            proof {
                assert(result@ =~= interleave(a@, b@).take(shorter + j as int));
            }
        }
        let mut k: usize = shorter;
        while k < b.len()
            invariant
                shorter <= a@.len(),
                shorter <= b@.len(),
                shorter == if a@.len() < b@.len() {
                    a@.len() as int
                } else {
                    b@.len() as int
                },
                j == a@.len(),
                shorter <= k <= b@.len(),
                k > shorter ==> shorter == a@.len(),
                result@ == interleave(a@, b@).take(j + k as int),
            decreases b@.len() - k,
        {
            result.push(b[k]);
            k = k + 1;
            proof {
                assert(result@ =~= interleave(a@, b@).take(j + k as int));
            }
        }
        proof {
            assert(result@ =~= interleave(a@, b@));
        }
        Self { coefficients: result }
    }
}

} // verus!
