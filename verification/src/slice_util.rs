//! Generic, representation-agnostic slice primitives: drop a matching prefix,
//! drop a matching suffix, take a prefix up to the first match.
//!
//! Each primitive takes an arbitrary predicate closure. Because a closure is
//! only known through `call_ensures`, the contracts come in two parts: an
//! exact witness (the cut index, with what the closure returned around it),
//! and an equality against the spec-level operation for any spec predicate
//! that the closure decides.

use vstd::prelude::*;

verus! {

/// Length of the longest prefix of `s` whose elements all satisfy `p`.
pub open spec fn prefix_len<T>(s: Seq<T>, p: spec_fn(T) -> bool) -> int
    decreases s.len(),
{
    if s.len() == 0 || !p(s[0]) {
        0
    } else {
        1 + prefix_len(s.drop_first(), p)
    }
}

/// Length of the longest suffix of `s` whose elements all satisfy `p`.
pub open spec fn suffix_len<T>(s: Seq<T>, p: spec_fn(T) -> bool) -> int
    decreases s.len(),
{
    if s.len() == 0 || !p(s.last()) {
        0
    } else {
        1 + suffix_len(s.drop_last(), p)
    }
}

/// The suffix of `s` starting at the first element for which `p` is false.
pub open spec fn spec_skip_while<T>(s: Seq<T>, p: spec_fn(T) -> bool) -> Seq<T> {
    s.subrange(prefix_len(s, p), s.len() as int)
}

/// The prefix of `s` ending at the last element for which `p` is false.
pub open spec fn spec_skip_from_right_while<T>(s: Seq<T>, p: spec_fn(T) -> bool) -> Seq<T> {
    s.take(s.len() - suffix_len(s, p))
}

/// The prefix of `s` strictly before the first element for which `p` is true.
pub open spec fn spec_take_until<T>(s: Seq<T>, p: spec_fn(T) -> bool) -> Seq<T> {
    s.take(prefix_len(s, |x: T| !p(x)))
}

pub proof fn lemma_prefix_len_bounds<T>(s: Seq<T>, p: spec_fn(T) -> bool)
    ensures
        0 <= prefix_len(s, p) <= s.len(),
        forall|i: int| 0 <= i < prefix_len(s, p) ==> p(s[i]),
        prefix_len(s, p) < s.len() ==> !p(s[prefix_len(s, p)]),
    decreases s.len(),
{
    if s.len() == 0 || !p(s[0]) {
    } else {
        lemma_prefix_len_bounds(s.drop_first(), p);
        assert forall|i: int| 0 <= i < prefix_len(s, p) implies p(s[i]) by {
            if i > 0 {
                assert(p(s.drop_first()[i - 1]));
            }
        }
        if prefix_len(s, p) < s.len() {
            assert(!p(s.drop_first()[prefix_len(s.drop_first(), p)]));
        }
    }
}

/// `prefix_len` is the unique index with all-matching elements before it and
/// a non-matching element (or the end) at it.
pub proof fn lemma_prefix_len_of<T>(s: Seq<T>, p: spec_fn(T) -> bool, k: int)
    requires
        0 <= k <= s.len(),
        forall|i: int| 0 <= i < k ==> p(s[i]),
        k < s.len() ==> !p(s[k]),
    ensures
        prefix_len(s, p) == k,
    decreases s.len(),
{
    if k == 0 {
    } else {
        assert(p(s[0]));
        assert forall|i: int| 0 <= i < k - 1 implies p(s.drop_first()[i]) by {
            assert(p(s[i + 1]));
        }
        if k - 1 < s.drop_first().len() {
            assert(s.drop_first()[k - 1] == s[k]);
        }
        lemma_prefix_len_of(s.drop_first(), p, k - 1);
    }
}

/// `suffix_len` is determined by the last non-matching index.
pub proof fn lemma_suffix_len_of<T>(s: Seq<T>, p: spec_fn(T) -> bool, k: int)
    requires
        0 <= k <= s.len(),
        forall|i: int| k <= i < s.len() ==> p(s[i]),
        k > 0 ==> !p(s[k - 1]),
    ensures
        suffix_len(s, p) == s.len() - k,
    decreases s.len(),
{
    if k == s.len() {
    } else {
        assert(p(s.last()));
        assert forall|i: int| k <= i < s.drop_last().len() implies p(s.drop_last()[i]) by {
            assert(p(s[i]));
        }
        if k > 0 {
            assert(s.drop_last()[k - 1] == s[k - 1]);
        }
        lemma_suffix_len_of(s.drop_last(), p, k);
    }
}

/// Dropping a matching prefix is idempotent: a second application of
/// `spec_skip_while` with the same predicate is a no-op.
pub proof fn lemma_skip_while_idempotent<T>(s: Seq<T>, p: spec_fn(T) -> bool)
    ensures
        spec_skip_while(spec_skip_while(s, p), p) == spec_skip_while(s, p),
{
    lemma_prefix_len_bounds(s, p);
    let k = prefix_len(s, p);
    let r = spec_skip_while(s, p);
    if r.len() > 0 {
        assert(r[0] == s[k]);
        assert(prefix_len(r, p) == 0);
    }
    assert(spec_skip_while(r, p) =~= r);
}

/// The dropped all-matching prefix, concatenated with the kept suffix,
/// reconstructs the original sequence.
pub proof fn lemma_skip_while_reconstructs<T>(s: Seq<T>, p: spec_fn(T) -> bool)
    ensures
        s.take(prefix_len(s, p)) + spec_skip_while(s, p) == s,
        forall|i: int| 0 <= i < prefix_len(s, p) ==> p(s[i]),
{
    lemma_prefix_len_bounds(s, p);
    assert(s.take(prefix_len(s, p)) + spec_skip_while(s, p) =~= s);
}

pub trait SkipWhile<T: Copy>: View<V = Seq<T>> {
    /// Returns the suffix starting at the first element for which the
    /// predicate is false; empty if the predicate holds for every element.
    fn skip_while<F: Fn(T) -> bool>(&self, predicate: F) -> (r: Vec<T>)
        requires
            forall|i: int| 0 <= i < self@.len() ==> call_requires(predicate, (self@[i],)),
        ensures
            exists|k: int|
                {
                    &&& 0 <= k <= self@.len()
                    &&& r@ == self@.subrange(k, self@.len() as int)
                    &&& (forall|i: int| 0 <= i < k ==> call_ensures(predicate, (self@[i],), true))
                    &&& (k < self@.len() ==> call_ensures(predicate, (self@[k],), false))
                },
            forall|q: spec_fn(T) -> bool|
                (forall|x: T, b: bool| call_ensures(predicate, (x,), b) ==> b == q(x))
                    ==> r@ == #[trigger] spec_skip_while(self@, q),
    ;
}

impl<T: Copy> SkipWhile<T> for [T] {
    fn skip_while<F: Fn(T) -> bool>(&self, predicate: F) -> (r: Vec<T>) {
        let n = self.len();
        let mut k: usize = 0;
        while k < n
            invariant
                n == self@.len(),
                0 <= k <= n,
                forall|i: int| 0 <= i < self@.len() ==> call_requires(predicate, (self@[i],)),
                forall|i: int| 0 <= i < k ==> call_ensures(predicate, (self@[i],), true),
            decreases n - k,
        {
            let x = *vstd::slice::slice_index_get(self, k);
            if !predicate(x) {
                let r = vstd::slice::slice_to_vec(vstd::slice::slice_subrange(self, k, n));
                assert forall|q: spec_fn(T) -> bool|
                    (forall|x: T, b: bool| call_ensures(predicate, (x,), b) ==> b == q(x))
                        implies r@ == #[trigger] spec_skip_while(self@, q) by {
                    assert forall|i: int| 0 <= i < k implies q(self@[i]) by {
                        assert(call_ensures(predicate, (self@[i],), true));
                    }
                    lemma_prefix_len_of(self@, q, k as int);
                }
                return r;
            }
            k += 1;
        }
        let r: Vec<T> = Vec::new();
        assert(r@ =~= self@.subrange(n as int, self@.len() as int));
        assert forall|q: spec_fn(T) -> bool|
            (forall|x: T, b: bool| call_ensures(predicate, (x,), b) ==> b == q(x))
                implies r@ == #[trigger] spec_skip_while(self@, q) by {
            assert forall|i: int| 0 <= i < n implies q(self@[i]) by {
                assert(call_ensures(predicate, (self@[i],), true));
            }
            lemma_prefix_len_of(self@, q, n as int);
            assert(r@ =~= spec_skip_while(self@, q));
        }
        r
    }
}

pub trait SkipFromRightWhile<T: Copy>: View<V = Seq<T>> {
    /// Returns the prefix ending at the last element for which the predicate
    /// is false; empty if the predicate holds for every element.
    fn skip_from_right_while<F: Fn(T) -> bool>(&self, predicate: F) -> (r: Vec<T>)
        requires
            forall|i: int| 0 <= i < self@.len() ==> call_requires(predicate, (self@[i],)),
        ensures
            exists|k: int|
                {
                    &&& 0 <= k <= self@.len()
                    &&& r@ == self@.take(k)
                    &&& (forall|i: int| k <= i < self@.len() ==> call_ensures(
                        predicate,
                        (self@[i],),
                        true,
                    ))
                    &&& (k > 0 ==> call_ensures(predicate, (self@[k - 1],), false))
                },
            forall|q: spec_fn(T) -> bool|
                (forall|x: T, b: bool| call_ensures(predicate, (x,), b) ==> b == q(x))
                    ==> r@ == #[trigger] spec_skip_from_right_while(self@, q),
    ;
}

impl<T: Copy> SkipFromRightWhile<T> for [T] {
    fn skip_from_right_while<F: Fn(T) -> bool>(&self, predicate: F) -> (r: Vec<T>) {
        let n = self.len();
        let mut k: usize = n;
        while k > 0
            invariant
                n == self@.len(),
                0 <= k <= n,
                forall|i: int| 0 <= i < self@.len() ==> call_requires(predicate, (self@[i],)),
                forall|i: int| k <= i < n ==> call_ensures(predicate, (self@[i],), true),
            decreases k,
        {
            let x = *vstd::slice::slice_index_get(self, k - 1);
            if !predicate(x) {
                let r = vstd::slice::slice_to_vec(vstd::slice::slice_subrange(self, 0, k));
                assert(r@ =~= self@.take(k as int));
                assert forall|q: spec_fn(T) -> bool|
                    (forall|x: T, b: bool| call_ensures(predicate, (x,), b) ==> b == q(x))
                        implies r@ == #[trigger] spec_skip_from_right_while(self@, q) by {
                    assert forall|i: int| k <= i < self@.len() implies q(self@[i]) by {
                        assert(call_ensures(predicate, (self@[i],), true));
                    }
                    lemma_suffix_len_of(self@, q, k as int);
                }
                return r;
            }
            k -= 1;
        }
        let r: Vec<T> = Vec::new();
        assert(r@ =~= self@.take(0));
        assert forall|q: spec_fn(T) -> bool|
            (forall|x: T, b: bool| call_ensures(predicate, (x,), b) ==> b == q(x))
                implies r@ == #[trigger] spec_skip_from_right_while(self@, q) by {
            assert forall|i: int| 0 <= i < self@.len() implies q(self@[i]) by {
                assert(call_ensures(predicate, (self@[i],), true));
            }
            lemma_suffix_len_of(self@, q, 0);
        }
        r
    }
}

pub trait TakeUntil<T: Copy>: View<V = Seq<T>> {
    /// Returns the prefix strictly before the first element for which the
    /// predicate is true; the whole sequence if the predicate never holds.
    fn take_until<F: Fn(T) -> bool>(&self, predicate: F) -> (r: Vec<T>)
        requires
            forall|i: int| 0 <= i < self@.len() ==> call_requires(predicate, (self@[i],)),
        ensures
            exists|k: int|
                {
                    &&& 0 <= k <= self@.len()
                    &&& r@ == self@.take(k)
                    &&& (forall|i: int| 0 <= i < k ==> call_ensures(predicate, (self@[i],), false))
                    &&& (k < self@.len() ==> call_ensures(predicate, (self@[k],), true))
                },
            forall|q: spec_fn(T) -> bool|
                (forall|x: T, b: bool| call_ensures(predicate, (x,), b) ==> b == q(x))
                    ==> r@ == #[trigger] spec_take_until(self@, q),
    ;
}

impl<T: Copy> TakeUntil<T> for [T] {
    fn take_until<F: Fn(T) -> bool>(&self, predicate: F) -> (r: Vec<T>) {
        let n = self.len();
        let mut k: usize = 0;
        while k < n
            invariant
                n == self@.len(),
                0 <= k <= n,
                forall|i: int| 0 <= i < self@.len() ==> call_requires(predicate, (self@[i],)),
                forall|i: int| 0 <= i < k ==> call_ensures(predicate, (self@[i],), false),
            decreases n - k,
        {
            let x = *vstd::slice::slice_index_get(self, k);
            if predicate(x) {
                let r = vstd::slice::slice_to_vec(vstd::slice::slice_subrange(self, 0, k));
                assert(r@ =~= self@.take(k as int));
                assert forall|q: spec_fn(T) -> bool|
                    (forall|x: T, b: bool| call_ensures(predicate, (x,), b) ==> b == q(x))
                        implies r@ == #[trigger] spec_take_until(self@, q) by {
                    let np = |x: T| !q(x);
                    assert forall|i: int| 0 <= i < k implies np(self@[i]) by {
                        assert(call_ensures(predicate, (self@[i],), false));
                    }
                    assert(!np(self@[k as int]));
                    lemma_prefix_len_of(self@, np, k as int);
                }
                return r;
            }
            k += 1;
        }
        let r = vstd::slice::slice_to_vec(vstd::slice::slice_subrange(self, 0, n));
        assert(r@ =~= self@.take(n as int));
        assert forall|q: spec_fn(T) -> bool|
            (forall|x: T, b: bool| call_ensures(predicate, (x,), b) ==> b == q(x))
                implies r@ == #[trigger] spec_take_until(self@, q) by {
            let np = |x: T| !q(x);
            assert forall|i: int| 0 <= i < n implies np(self@[i]) by {
                assert(call_ensures(predicate, (self@[i],), false));
            }
            lemma_prefix_len_of(self@, np, n as int);
        }
        r
    }
}

} // verus!
