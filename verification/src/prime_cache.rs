use vstd::prelude::*;
use std::collections::{HashMap, VecDeque};
use crate::arith::{is_prime, lemma_divisor_not_prime, lemma_prime_by_trial};

verus! {

broadcast use vstd::std_specs::hash::group_hash_axioms;

/// `s` without any occurrence of `x`, in order.
pub open spec fn drop_value(s: Seq<i32>, x: i32) -> Seq<i32>
    decreases s.len(),
{
    if s.len() == 0 {
        s
    } else if s.last() == x {
        drop_value(s.drop_last(), x)
    } else {
        drop_value(s.drop_last(), x).push(s.last())
    }
}

/// The most-recently-used order after looking `num` up with room for `cap` numbers:
/// `num` moves to the front; a new number pushes out the least recently used one when
/// the cache is full.
pub open spec fn touch(order: Seq<i32>, num: i32, cap: nat) -> Seq<i32> {
    if order.contains(num) {
        seq![num] + drop_value(order, num)
    } else if order.len() >= cap {
        seq![num] + order.drop_last()
    } else {
        seq![num] + order
    }
}

/// No number occurs twice.
pub open spec fn distinct(s: Seq<i32>) -> bool {
    forall|i: int, j: int| 0 <= i < j < s.len() ==> s[i] != s[j]
}

/// The answers are held for exactly the numbers in `order`, and each is right.
pub open spec fn holds_answers(order: Seq<i32>, answers: Map<i32, bool>) -> bool {
    &&& forall|k: i32| #[trigger] answers.contains_key(k) <==> order.contains(k)
    &&& forall|k: i32| #[trigger] answers.contains_key(k) ==> answers[k] == is_prime(k as int)
}

/// A bounded cache of primality answers that forgets the least recently used number.
pub struct Cache {
    values: HashMap<i32, bool>,
    order: VecDeque<i32>,
    capacity: usize,
}

proof fn lemma_drop_value(s: Seq<i32>, x: i32)
    ensures
        !drop_value(s, x).contains(x),
        forall|y: i32| y != x ==> (#[trigger] drop_value(s, x).contains(y) <==> s.contains(y)),
        !s.contains(x) ==> drop_value(s, x) == s,
        distinct(s) ==> distinct(drop_value(s, x)),
        distinct(s) && s.contains(x) ==> drop_value(s, x).len() + 1 == s.len(),
        drop_value(s, x).len() <= s.len(),
    decreases s.len(),
{
    if s.len() > 0 {
        let p = s.drop_last();
        lemma_drop_value(p, x);
        let d = drop_value(p, x);
        assert(s =~= p.push(s.last()));
        assert forall|y: i32| y != x implies (#[trigger] drop_value(s, x).contains(y)
            <==> s.contains(y)) by {
            lemma_push_contains(p, s.last(), y);
            if s.last() != x {
                lemma_push_contains(d, s.last(), y);
            }
        }
        if !s.contains(x) {
            assert(!p.contains(x)) by {
                if p.contains(x) {
                    let k = choose|k: int| 0 <= k < p.len() && p[k] == x;
                    assert(s[k] == x);
                }
            }
            assert(s.last() != x) by {
                assert(s[s.len() - 1] == s.last());
            }
            assert(s =~= p.push(s.last()));
        }
        if s.last() != x {
            assert(!d.push(s.last()).contains(x)) by {
                if d.push(s.last()).contains(x) {
                    let k = choose|k: int| 0 <= k < d.len() + 1 && d.push(s.last())[k] == x;
                    assert(d[k] == x);
                }
            }
        }
        if distinct(s) {
            assert(distinct(p));
            if s.last() != x {
                assert(!p.contains(s.last())) by {
                    if p.contains(s.last()) {
                        let k = choose|k: int| 0 <= k < p.len() && p[k] == s.last();
                        assert(s[k] == s[s.len() - 1]);
                    }
                }
                assert(!d.contains(s.last()));
                assert forall|i: int, j: int|
                    0 <= i < j < d.len() + 1 implies d.push(s.last())[i] != d.push(s.last())[j] by {
                    if j == d.len() {
                        assert(d.contains(d[i]));
                    }
                }
            } else {
                assert(!p.contains(x)) by {
                    if p.contains(x) {
                        let k = choose|k: int| 0 <= k < p.len() && p[k] == x;
                        assert(s[k] == s[s.len() - 1]);
                    }
                }
            }
            if s.contains(x) && s.last() != x {
                let k = choose|k: int| 0 <= k < s.len() && s[k] == x;
                assert(p[k] == x);
            }
        }
    }
}

proof fn lemma_push_contains(p: Seq<i32>, e: i32, y: i32)
    ensures
        p.push(e).contains(y) <==> (p.contains(y) || y == e),
{
    if p.contains(y) {
        let k = choose|k: int| 0 <= k < p.len() && p[k] == y;
        assert(p.push(e)[k] == y);
    }
    if y == e {
        assert(p.push(e)[p.len() as int] == y);
    }
    if p.push(e).contains(y) {
        let k = choose|k: int| 0 <= k < p.len() + 1 && p.push(e)[k] == y;
        if k < p.len() {
            assert(p[k] == y);
        }
    }
}

impl Cache {
    /// The numbers in the cache, most recently used first.
    pub closed spec fn recent(&self) -> Seq<i32> {
        self.order@
    }

    /// How many numbers the cache keeps.
    pub closed spec fn room(&self) -> nat {
        self.capacity as nat
    }

    /// The answers the cache holds.
    pub closed spec fn answers(&self) -> Map<i32, bool> {
        self.values@
    }

    /// The cache's invariant: the answers are held for exactly the numbers in the order,
    /// each once, each answer is right, and there are no more numbers than room.
    pub closed spec fn wf(&self) -> bool {
        &&& distinct(self.order@)
        &&& forall|k: i32| #[trigger] self.values@.contains_key(k) <==> self.order@.contains(k)
        &&& forall|k: i32| #[trigger] self.values@.contains_key(k) ==> self.values@[k] == is_prime(k as int)
        &&& self.order@.len() <= self.capacity || self.order@.len() == 0
    }

    /// What the invariant says in public terms: the answers are held for exactly the
    /// numbers in the order, each is right, no number occurs twice in the order, and there
    /// are no more numbers than room.
    pub proof fn lemma_wf_facts(&self)
        requires
            self.wf(),
        ensures
            holds_answers(self.recent(), self.answers()),
            distinct(self.recent()),
            self.recent().len() <= self.room() || self.recent().len() == 0,
    {
    }

    /// An empty cache with room for `capacity` numbers.
    pub fn new(capacity: usize) -> (c: Self)
        ensures
            c.wf(),
            c.recent() == Seq::<i32>::empty(),
            c.answers() == Map::<i32, bool>::empty(),
            c.room() == capacity,
    {
        Cache { values: HashMap::new(), order: VecDeque::new(), capacity }
    }

    /// Whether `num` is prime, by trial division up to `num / 2`.
    pub fn is_prime(&self, num: i32) -> (r: bool)
        ensures
            r == is_prime(num as int),
    {
        if num <= 1 {
            return false;
        }
        let mut i: i32 = 2;
        while i <= num / 2
            invariant
                num >= 2,
                2 <= i <= num / 2 + 1,
                forall|d: int| 2 <= d < i ==> #[trigger] ((num as int) % d) != 0,
            decreases num / 2 + 1 - i,
        {
            if num % i == 0 {
                proof {
                    lemma_divisor_not_prime(num as int, i as int);
                }
                return false;
            }
            i = i + 1;
        }
        proof {
            let k = num / 2 + 1;
            assert(k * k > num) by (nonlinear_arith)
                requires
                    k == num / 2 + 1,
                    num >= 2,
            ;
            lemma_prime_by_trial(num as int, k as int);
        }
        return true;
    }

    /// Whether `num` is prime, from the cache when it holds the answer. `num` becomes the
    /// most recently used number; a new number pushes out the least recently used one
    /// when the cache is full. The cache must have room for at least one number.
    pub fn get_or_insert(&mut self, num: i32) -> (r: bool)
        requires
            old(self).wf(),
            old(self).room() > 0,
        ensures
            final(self).wf(),
            r == is_prime(num as int),
            final(self).room() == old(self).room(),
            final(self).recent() == touch(old(self).recent(), num, old(self).room()),
            holds_answers(final(self).recent(), final(self).answers()),
            distinct(final(self).recent()),
            final(self).recent().len() <= final(self).room(),
    {
        let ghost old_order = self.order@;
        match self.values.get(&num) {
            Some(_) => {
                assert(old_order.contains(num));
                let mut kept: VecDeque<i32> = VecDeque::new();
                let mut i: usize = 0;
                while i < self.order.len()
                    invariant
                        self.order@ == old_order,
                        i <= old_order.len(),
                        kept@ == drop_value(old_order.take(i as int), num),
                    decreases old_order.len() - i,
                {
                    assert(old_order.take(i + 1).drop_last() =~= old_order.take(i as int));
                    let x = self.order[i];
                    if x != num {
                        kept.push_back(x);
                    }
                    i = i + 1;
                }
                assert(old_order.take(old_order.len() as int) =~= old_order);
                self.order = kept;
                proof {
                    lemma_drop_value(old_order, num);
                }
            },
            None => {
                assert(!old_order.contains(num));
                let result = self.is_prime(num);
                self.values.insert(num, result);
                if self.order.len() >= self.capacity {
                    let removed = self.order.pop_back();
                    match removed {
                        Some(k) => {
                            assert(old_order.contains(k)) by {
                                assert(old_order[old_order.len() - 1] == k);
                            }
                            self.values.remove(&k);
                            assert(self.order@ =~= old_order.drop_last());
                            proof {
                                assert forall|j: i32| #[trigger] self.order@.contains(j)
                                    <==> (old_order.contains(j) && j != k) by {
                                    if old_order.contains(j) && j != k {
                                        let t = choose|t: int| 0 <= t < old_order.len() && old_order[t] == j;
                                        assert(t != old_order.len() - 1);
                                        assert(self.order@[t] == j);
                                    }
                                    if self.order@.contains(j) {
                                        let t = choose|t: int| 0 <= t < self.order@.len() && self.order@[t] == j;
                                        assert(old_order[t] == j);
                                        assert(j != k);
                                    }
                                }
                            }
                        },
                        None => {},
                    }
                }
            },
        }
        let ghost mid = self.order@;
        self.order.push_front(num);
        proof {
            assert forall|j: i32| #[trigger] self.order@.contains(j) <==> (mid.contains(j) || j == num) by {
                if self.order@.contains(j) && j != num {
                    let t = choose|t: int| 0 <= t < self.order@.len() && self.order@[t] == j;
                    assert(mid[t - 1] == j);
                }
                if mid.contains(j) {
                    let t = choose|t: int| 0 <= t < mid.len() && mid[t] == j;
                    assert(self.order@[t + 1] == j);
                }
                if j == num {
                    assert(self.order@[0] == num);
                }
            }
            assert(!mid.contains(num));
            assert forall|i: int, j: int| 0 <= i < j < self.order@.len() implies self.order@[i]
                != self.order@[j] by {
                if i == 0 {
                    assert(mid.contains(self.order@[j]));
                } else {
                    assert(self.order@[i] == mid[i - 1] && self.order@[j] == mid[j - 1]);
                }
            }
        }
        match self.values.get(&num) {
            Some(v) => *v,
            None => false,
        }
    }
}

/// Looking the same number up twice in a row leaves the cache in the order that one
/// lookup gives.
pub proof fn lemma_touch_twice(order: Seq<i32>, num: i32, cap: nat)
    requires
        distinct(order),
        cap > 0,
        order.len() <= cap,
    ensures
        touch(touch(order, num, cap), num, cap) == touch(order, num, cap),
{
    let once = touch(order, num, cap);
    let rest = once.drop_first();
    assert(once.contains(num)) by {
        assert(once[0] == num);
    }
    lemma_drop_value(order, num);
    assert(!rest.contains(num)) by {
        if rest.contains(num) {
            let k = choose|k: int| 0 <= k < rest.len() && rest[k] == num;
            if !order.contains(num) {
                assert(order.contains(rest[k]));
            }
        }
    }
    lemma_drop_value(rest, num);
    lemma_drop_value_front(num, rest);
    assert(once =~= seq![num] + rest);
}

/// Dropping `x` from a sequence that starts with it and has no other copy leaves the
/// rest.
proof fn lemma_drop_value_front(x: i32, rest: Seq<i32>)
    requires
        !rest.contains(x),
    ensures
        drop_value(seq![x] + rest, x) == rest,
    decreases rest.len(),
{
    if rest.len() == 0 {
        let t = seq![x] + rest;
        assert(t =~= seq![x]);
        assert(t.last() == x);
        assert(t.drop_last() =~= Seq::<i32>::empty());
        assert(drop_value(t.drop_last(), x) =~= Seq::<i32>::empty());
        assert(rest =~= Seq::<i32>::empty());
    } else {
        let p = rest.drop_last();
        assert(!p.contains(x)) by {
            if p.contains(x) {
                let k = choose|k: int| 0 <= k < p.len() && p[k] == x;
                assert(rest[k] == x);
            }
        }
        lemma_drop_value_front(x, p);
        assert((seq![x] + rest).drop_last() =~= seq![x] + p);
        assert(rest.last() != x) by {
            assert(rest[rest.len() - 1] == rest.last());
        }
        assert(rest =~= p.push(rest.last()));
    }
}

} // verus!
