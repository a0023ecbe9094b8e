use vstd::prelude::*;

use crate::ordered::{
    OrderedMap, has_key, keys_of, lemma_keys_edit, lemma_keys_of, lemma_pos_of, pos_of,
    lemma_remove_unique as lemma_remove_unique_keys,
};

use super::{AccessOutcome, CacheKey, ReplacementPolicy, drop_key};
use crate::model::Key;

verus! {

/// Adaptive replacement: two resident lists (`t1` seen once, `t2` seen
/// again), two ghost lists of recently evicted keys (`b1`, `b2`), and the
/// target size `p` of `t1`, which ghost hits move.
pub struct Arc<K = Key> {
    c: usize,
    p: usize,
    t1: OrderedMap<K, ()>,
    t2: OrderedMap<K, ()>,
    b1: OrderedMap<K, ()>,
    b2: OrderedMap<K, ()>,
}

/// The abstract ARC state: the key sequences `t1`, `t2`, `b1`, `b2` (front =
/// oldest) and the target `p`.
pub type ArcLists<K> = (Seq<K>, Seq<K>, Seq<K>, Seq<K>, nat);

/// A hit moves the key to the back of `t2`.
pub open spec fn arc_hit<K>(st: ArcLists<K>, x: K) -> ArcLists<K> {
    let (t1, t2, b1, b2, p) = st;
    if t1.contains(x) {
        (t1.remove(t1.index_of(x)), t2.push(x), b1, b2, p)
    } else {
        (t1, t2.remove(t2.index_of(x)).push(x), b1, b2, p)
    }
}

/// The target after a miss: a `b1` ghost hit grows it, a `b2` ghost hit shrinks it.
pub open spec fn arc_adapt<K>(c: nat, st: ArcLists<K>, x: K) -> nat {
    let (t1, t2, b1, b2, p) = st;
    if b1.contains(x) {
        let q = b2.len() / (if b1.len() == 0 { 1 } else { b1.len() });
        let delta = if q == 0 { 1 } else { q };
        if p + delta <= c { p + delta } else { c }
    } else if b2.contains(x) {
        let q = b1.len() / (if b2.len() == 0 { 1 } else { b2.len() });
        let delta = if q == 0 { 1 } else { q };
        if delta <= p { (p - delta) as nat } else { 0 }
    } else {
        p
    }
}

/// Demotes the front of `t1` (when it exceeds the target, or `t2` is empty)
/// or else of `t2` to its ghost list.
pub open spec fn arc_replace<K>(st: ArcLists<K>, x_in_b2: bool) -> (ArcLists<K>, Option<K>) {
    let (t1, t2, b1, b2, p) = st;
    if t1.len() > 0 && (t1.len() > p || (x_in_b2 && t1.len() == p) || t2.len() == 0) {
        ((t1.drop_first(), t2, b1.push(t1[0]), b2, p), Some(t1[0]))
    } else if t2.len() > 0 {
        ((t1, t2.drop_first(), b1, b2.push(t2[0]), p), Some(t2[0]))
    } else {
        (st, None)
    }
}

/// How many entries a list of length `len` loses to bring an overshoot of `excess` down.
pub open spec fn trim_count(excess: int, len: nat) -> int {
    if excess <= 0 {
        0
    } else if excess > len {
        len as int
    } else {
        excess
    }
}

/// Enters the missed key: to `t2` after a ghost hit (leaving the ghost list),
/// else to `t1`.
pub open spec fn arc_enter<K>(r: ArcLists<K>, x: K, in_b1: bool, in_b2: bool) -> ArcLists<K> {
    let (rt1, rt2, rb1, rb2, rp) = r;
    if in_b1 {
        (rt1, rt2.push(x), rb1.remove(rb1.index_of(x)), rb2, rp)
    } else if in_b2 {
        (rt1, rt2.push(x), rb1, rb2.remove(rb2.index_of(x)), rp)
    } else {
        (rt1.push(x), rt2, rb1, rb2, rp)
    }
}

/// Drops the oldest ghost entries: `b1` until `t1 + b1 <= c`, then `b2` until
/// all four lists together hold at most `2c` (each stops when it is empty).
pub open spec fn arc_trim<K>(c: nat, st: ArcLists<K>) -> ArcLists<K> {
    let (t1, t2, b1, b2, p) = st;
    let nb1 = b1.skip(trim_count(t1.len() + b1.len() - c, b1.len()));
    let nb2 = b2.skip(trim_count(t1.len() + t2.len() + nb1.len() + b2.len() - 2 * c, b2.len()));
    (t1, t2, nb1, nb2, p)
}

/// A miss: adapt `p`, make room when `t1` and `t2` fill the capacity, enter
/// the key, then trim the ghost lists.
pub open spec fn arc_miss<K>(c: nat, st: ArcLists<K>, x: K) -> (ArcLists<K>, Option<K>) {
    let (t1, t2, b1, b2, p) = st;
    let in_b1 = b1.contains(x);
    let in_b2 = b2.contains(x);
    let a = (t1, t2, b1, b2, arc_adapt(c, st, x));
    let (r, ev) = if t1.len() + t2.len() >= c {
        arc_replace(a, in_b2)
    } else {
        (a, None)
    };
    (arc_trim(c, arc_enter(r, x, in_b1, in_b2)), ev)
}

/// No key is in both sequences.
pub open spec fn disjoint<K>(a: Seq<K>, b: Seq<K>) -> bool {
    forall|x: K| !(#[trigger] a.contains(x) && b.contains(x))
}

/// The ARC lists are duplicate-free and pairwise disjoint, `p` is at most
/// `c`, the resident lists hold at most `c` keys, and the ghost lists are
/// trimmed (`t1 + b1 <= c` unless `b1` is empty, the total at most `2c`
/// unless `b2` is empty).
pub open spec fn lists_valid<K>(c: nat, st: ArcLists<K>) -> bool {
    let (t1, t2, b1, b2, p) = st;
    &&& t1.no_duplicates()
    &&& t2.no_duplicates()
    &&& b1.no_duplicates()
    &&& b2.no_duplicates()
    &&& disjoint(t1, t2)
    &&& disjoint(t1, b1)
    &&& disjoint(t1, b2)
    &&& disjoint(t2, b1)
    &&& disjoint(t2, b2)
    &&& disjoint(b1, b2)
    &&& p <= c
    &&& t1.len() + t2.len() <= c
    &&& (b1.len() == 0 || t1.len() + b1.len() <= c)
    &&& (b2.len() == 0 || t1.len() + t2.len() + b1.len() + b2.len() <= 2 * c)
}

/// Every element of `a` is in `b`.
pub open spec fn within<K>(a: Seq<K>, b: Seq<K>) -> bool {
    forall|x: K| #[trigger] a.contains(x) ==> b.contains(x)
}

proof fn lemma_skip_within<K>(s: Seq<K>, n: int)
    requires
        0 <= n <= s.len(),
        s.no_duplicates(),
    ensures
        within(s.skip(n), s),
        s.skip(n).no_duplicates(),
        s.skip(n).len() == s.len() - n,
{
    assert forall|x: K| #[trigger] s.skip(n).contains(x) implies s.contains(x) by {
        let i = choose|i: int| 0 <= i < s.skip(n).len() && s.skip(n)[i] == x;
        assert(s[i + n] == x);
    }
    assert forall|i: int, j: int| 0 <= i < s.skip(n).len() && 0 <= j < s.skip(n).len() && i != j implies s.skip(n)[i] != s.skip(n)[j] by {
        assert(s.skip(n)[i] == s[i + n]);
        assert(s.skip(n)[j] == s[j + n]);
    }
}

proof fn lemma_remove_within<K>(s: Seq<K>, i: int)
    requires
        0 <= i < s.len(),
        s.no_duplicates(),
    ensures
        within(s.remove(i), s),
        s.remove(i).no_duplicates(),
        !s.remove(i).contains(s[i]),
        forall|x: K| s.contains(x) && x != s[i] ==> #[trigger] s.remove(i).contains(x),
{
    let r = s.remove(i);
    assert forall|x: K| #[trigger] r.contains(x) implies s.contains(x) by {
        let j = choose|j: int| 0 <= j < r.len() && r[j] == x;
        if j < i {
            assert(s[j] == x);
        } else {
            assert(s[j + 1] == x);
        }
    }
    assert forall|a: int, b: int| 0 <= a < r.len() && 0 <= b < r.len() && a != b implies r[a] != r[b] by {
        let a0 = if a < i { a } else { a + 1 };
        let b0 = if b < i { b } else { b + 1 };
        assert(r[a] == s[a0]);
        assert(r[b] == s[b0]);
    }
    assert(!r.contains(s[i])) by {
        if r.contains(s[i]) {
            let j = choose|j: int| 0 <= j < r.len() && r[j] == s[i];
            let j0 = if j < i { j } else { j + 1 };
            assert(s[j0] == s[i]);
        }
    }
    assert forall|x: K| s.contains(x) && x != s[i] implies #[trigger] r.contains(x) by {
        let j = choose|j: int| 0 <= j < s.len() && s[j] == x;
        if j < i {
            assert(r[j] == x);
        } else {
            assert(r[j - 1] == x);
        }
    }
}

proof fn lemma_push_within<K>(s: Seq<K>, x: K)
    requires
        s.no_duplicates(),
        !s.contains(x),
    ensures
        s.push(x).no_duplicates(),
        forall|y: K| #[trigger] s.push(x).contains(y) <==> (s.contains(y) || y == x),
{
    let r = s.push(x);
    assert forall|y: K| #[trigger] r.contains(y) <==> (s.contains(y) || y == x) by {
        if r.contains(y) {
            let j = choose|j: int| 0 <= j < r.len() && r[j] == y;
            if j < s.len() {
                assert(s[j] == y);
            }
        }
        if s.contains(y) {
            let j = choose|j: int| 0 <= j < s.len() && s[j] == y;
            assert(r[j] == y);
        }
        if y == x {
            assert(r[s.len() as int] == y);
        }
    }
    assert forall|a: int, b: int| 0 <= a < r.len() && 0 <= b < r.len() && a != b implies r[a] != r[b] by {
        if a == s.len() {
            assert(s.contains(r[b]));
        } else if b == s.len() {
            assert(s.contains(r[a]));
        }
    }
}

/// A hit keeps the lists valid.
proof fn lemma_hit_valid<K>(c: nat, st: ArcLists<K>, x: K)
    requires
        lists_valid(c, st),
        st.0.contains(x) || st.1.contains(x),
    ensures
        lists_valid(c, arc_hit(st, x)),
{
    let (t1, t2, b1, b2, p) = st;
    if t1.contains(x) {
        let i = t1.index_of(x);
        lemma_remove_within(t1, i);
        lemma_push_within(t2, x);
    } else {
        let i = t2.index_of(x);
        lemma_remove_within(t2, i);
        lemma_push_within(t2.remove(i), x);
    }
}

proof fn lemma_replace_valid<K>(c: nat, a: ArcLists<K>, in_b2: bool)
    requires
        lists_valid_loose(c, a),
        c >= 1,
        a.0.len() + a.1.len() == c,
    ensures
        ({
            let (res, ev) = arc_replace(a, in_b2);
            &&& lists_valid_loose(c, res)
            &&& res.4 == a.4
            &&& within(res.0, a.0)
            &&& within(res.1, a.1)
            &&& forall|y: K| #[trigger] res.2.contains(y) ==> a.2.contains(y) || a.0.contains(y)
            &&& forall|y: K| #[trigger] res.3.contains(y) ==> a.3.contains(y) || a.1.contains(y)
            &&& within(a.2, res.2)
            &&& within(a.3, res.3)
            &&& res.0.len() + res.1.len() < c
            &&& ev is Some
            &&& ev matches Some(v) ==> res.0.len() + res.1.len() + 1 == a.0.len() + a.1.len() && (
            a.0.contains(v) || a.1.contains(v))
            &&& ev is None ==> res == a
            &&& forall|y: K| (#[trigger] res.0.contains(y) || res.1.contains(y)) <==> ((a.0.contains(y)
                || a.1.contains(y)) && ev != Some(y))
        }),
{
    let (t1, t2, b1, b2, p) = a;
    if t1.len() > 0 && (t1.len() > p || (in_b2 && t1.len() == p) || t2.len() == 0) {
        lemma_remove_within(t1, 0);
        assert(t1.drop_first() =~= t1.remove(0));
        assert(t1.contains(t1[0]));
        assert(!b1.contains(t1[0]));
        lemma_push_within(b1, t1[0]);
        assert(t1.contains(t1[0]));
    } else if t2.len() > 0 {
        lemma_remove_within(t2, 0);
        assert(t2.drop_first() =~= t2.remove(0));
        assert(t2.contains(t2[0]));
        assert(!b2.contains(t2[0]));
        lemma_push_within(b2, t2[0]);
        assert(t2.contains(t2[0]));
    }
}

proof fn lemma_enter_valid<K>(c: nat, r: ArcLists<K>, x: K, in_b1: bool, in_b2: bool)
    requires
        lists_valid_loose(c, r),
        !r.0.contains(x),
        !r.1.contains(x),
        !(in_b1 && in_b2),
        in_b1 ==> r.2.contains(x),
        in_b2 ==> r.3.contains(x),
        !in_b1 ==> !r.2.contains(x),
        !in_b2 ==> !r.3.contains(x),
    ensures
        lists_valid_loose(c, arc_enter(r, x, in_b1, in_b2)),
        arc_enter(r, x, in_b1, in_b2).0.len() + arc_enter(r, x, in_b1, in_b2).1.len() == r.0.len()
            + r.1.len() + 1,
        forall|y: K| (#[trigger] arc_enter(r, x, in_b1, in_b2).0.contains(y) || arc_enter(r, x, in_b1, in_b2).1.contains(y))
            <==> (r.0.contains(y) || r.1.contains(y) || y == x),
{
    let (rt1, rt2, rb1, rb2, rp) = r;
    if in_b1 {
        let i = rb1.index_of(x);
        lemma_remove_within(rb1, i);
        lemma_push_within(rt2, x);
    } else if in_b2 {
        let i = rb2.index_of(x);
        lemma_remove_within(rb2, i);
        lemma_push_within(rt2, x);
    } else {
        lemma_push_within(rt1, x);
    }
}

proof fn lemma_trim_valid<K>(c: nat, st: ArcLists<K>)
    requires
        lists_valid_loose(c, st),
        st.0.len() + st.1.len() <= c,
    ensures
        lists_valid(c, arc_trim(c, st)),
        arc_trim(c, st).0 == st.0,
        arc_trim(c, st).1 == st.1,
        arc_trim(c, st).4 == st.4,
{
    let (t1, t2, b1, b2, p) = st;
    let n1 = trim_count(t1.len() + b1.len() - c, b1.len());
    lemma_skip_within(b1, n1);
    let nb1 = b1.skip(n1);
    let n2 = trim_count(t1.len() + t2.len() + nb1.len() + b2.len() - 2 * c, b2.len());
    lemma_skip_within(b2, n2);
}

/// A miss keeps the lists valid.
proof fn lemma_miss_valid<K>(c: nat, st: ArcLists<K>, x: K)
    requires
        lists_valid(c, st),
        c >= 1,
        !st.0.contains(x),
        !st.1.contains(x),
    ensures
        lists_valid(c, arc_miss(c, st, x).0),
        arc_miss(c, st, x).1 matches Some(v) ==> (st.0.contains(v) || st.1.contains(v)) && v != x,
        arc_miss(c, st, x).1 is Some <==> st.0.len() + st.1.len() >= c,
        arc_miss(c, st, x).0.0.len() + arc_miss(c, st, x).0.1.len() + (if arc_miss(c, st, x).1 is Some { 1int } else { 0int })
            == st.0.len() + st.1.len() + 1,
        forall|y: K| (#[trigger] arc_miss(c, st, x).0.0.contains(y) || arc_miss(c, st, x).0.1.contains(y))
            <==> (((st.0.contains(y) || st.1.contains(y)) && arc_miss(c, st, x).1 != Some(y)) || y == x),
{
    let (t1, t2, b1, b2, p) = st;
    let in_b1 = b1.contains(x);
    let in_b2 = b2.contains(x);
    let a = (t1, t2, b1, b2, arc_adapt(c, st, x));
    assert(lists_valid_loose(c, a));
    let (r, ev) = if t1.len() + t2.len() >= c {
        arc_replace(a, in_b2)
    } else {
        (a, None)
    };
    if t1.len() + t2.len() >= c {
        lemma_replace_valid(c, a, in_b2);
    }
    assert(!(in_b1 && in_b2));
    lemma_enter_valid(c, r, x, in_b1, in_b2);
    lemma_trim_valid(c, arc_enter(r, x, in_b1, in_b2));
}

/// The lists are valid except for the trimming bounds on the ghost lists.
pub open spec fn lists_valid_loose<K>(c: nat, st: ArcLists<K>) -> bool {
    let (t1, t2, b1, b2, p) = st;
    &&& t1.no_duplicates()
    &&& t2.no_duplicates()
    &&& b1.no_duplicates()
    &&& b2.no_duplicates()
    &&& disjoint(t1, t2)
    &&& disjoint(t1, b1)
    &&& disjoint(t1, b2)
    &&& disjoint(t2, b1)
    &&& disjoint(t2, b2)
    &&& disjoint(b1, b2)
    &&& p <= c
}

/// An invalidation takes the key out of all four lists.
pub open spec fn arc_remove<K>(st: ArcLists<K>, x: K) -> ArcLists<K> {
    (drop_key(st.0, x), drop_key(st.1, x), drop_key(st.2, x), drop_key(st.3, x), st.4)
}

proof fn lemma_drop_key<K>(s: Seq<K>, x: K)
    requires
        s.no_duplicates(),
    ensures
        drop_key(s, x).no_duplicates(),
        forall|y: K| #[trigger] drop_key(s, x).contains(y) <==> (s.contains(y) && y != x),
        drop_key(s, x).len() == s.len() - (if s.contains(x) { 1int } else { 0int }),
{
    if s.contains(x) {
        let i = s.index_of(x);
        lemma_remove_within(s, i);
    }
}

proof fn lemma_remove_valid<K>(c: nat, st: ArcLists<K>, x: K)
    requires
        lists_valid(c, st),
    ensures
        lists_valid(c, arc_remove(st, x)),
{
    lemma_drop_key(st.0, x);
    lemma_drop_key(st.1, x);
    lemma_drop_key(st.2, x);
    lemma_drop_key(st.3, x);
}

/// The resident keys `t1 + t2` hold as many distinct keys as entries.
proof fn lemma_resident_count<K>(c: nat, st: ArcLists<K>)
    requires
        lists_valid(c, st),
    ensures
        forall|y: K| #[trigger] (st.0 + st.1).to_set().contains(y) <==> (st.0.contains(y) || st.1.contains(y)),
        (st.0 + st.1).to_set().len() == st.0.len() + st.1.len(),
        (st.0 + st.1).to_set().finite(),
{
    let u = st.0 + st.1;
    assert forall|y: K| #[trigger] u.to_set().contains(y) <==> (st.0.contains(y) || st.1.contains(y)) by {
        if u.contains(y) {
            let i = choose|i: int| 0 <= i < u.len() && u[i] == y;
            if i < st.0.len() {
                assert(st.0[i] == y);
            } else {
                assert(st.1[i - st.0.len()] == y);
            }
        }
        if st.0.contains(y) {
            let i = choose|i: int| 0 <= i < st.0.len() && st.0[i] == y;
            assert(u[i] == y);
        }
        if st.1.contains(y) {
            let i = choose|i: int| 0 <= i < st.1.len() && st.1[i] == y;
            assert(u[i + st.0.len()] == y);
        }
    }
    assert forall|i: int, j: int| 0 <= i < u.len() && 0 <= j < u.len() && i != j implies u[i] != u[j] by {
        if i < st.0.len() && j < st.0.len() {
        } else if i >= st.0.len() && j >= st.0.len() {
            assert(u[i] == st.1[i - st.0.len()]);
            assert(u[j] == st.1[j - st.0.len()]);
        } else if i < st.0.len() {
            assert(st.0.contains(u[i]));
            assert(u[j] == st.1[j - st.0.len()]);
            assert(st.1.contains(u[j]));
        } else {
            assert(st.0.contains(u[j]));
            assert(u[i] == st.1[i - st.0.len()]);
            assert(st.1.contains(u[i]));
        }
    }
    u.unique_seq_to_set();
    vstd::seq_lib::seq_to_set_is_finite(u);
}

/// Valid lists bound the ghost lists by the capacity.
proof fn lemma_valid_bounds<K>(c: nat, st: ArcLists<K>)
    requires
        lists_valid(c, st),
    ensures
        st.2.len() <= c,
        st.3.len() <= 2 * c,
        st.0.len() + st.1.len() <= c,
{
}

impl<K: CacheKey> Arc<K> {
    /// The current lists and target.
    pub closed spec fn lists(&self) -> ArcLists<K> {
        (keys_of(self.t1@), keys_of(self.t2@), keys_of(self.b1@), keys_of(self.b2@), self.p as nat)
    }

    /// The capacity `c`.
    pub closed spec fn c_val(&self) -> nat {
        self.c as nat
    }

    pub closed spec fn arc_valid(&self) -> bool {
        &&& self.t1.wf()
        &&& self.t2.wf()
        &&& self.b1.wf()
        &&& self.b2.wf()
        &&& 1 <= self.c <= usize::MAX / 2
        &&& lists_valid(self.c as nat, self.lists())
    }

    /// An empty ARC cache of capacity `capacity` (one, if zero). The ghost
    /// lists together may hold `2c` keys, so `2c` must fit in a `usize`.
    pub fn new(capacity: usize) -> (r: Self)
        requires
            capacity <= usize::MAX / 2,
        ensures
            r.arc_valid(),
            r.lists() == (Seq::<K>::empty(), Seq::<K>::empty(), Seq::<K>::empty(), Seq::<K>::empty(), 0nat),
            r.c_val() == if capacity == 0 { 1 } else { capacity },
            r.resident() == Set::<K>::empty(),
            r.cap() == r.c_val(),
    {
        let c = if capacity == 0 {
            1
        } else {
            capacity
        };
        let r = Arc {
            c,
            p: 0,
            t1: OrderedMap::new(),
            t2: OrderedMap::new(),
            b1: OrderedMap::new(),
            b2: OrderedMap::new(),
        };
        proof {
            assert(keys_of(r.t1@) =~= Seq::<K>::empty());
            assert(keys_of(r.t2@) =~= Seq::<K>::empty());
            assert(keys_of(r.b1@) =~= Seq::<K>::empty());
            assert(keys_of(r.b2@) =~= Seq::<K>::empty());
            assert(r.resident() =~= Set::<K>::empty());
        }
        r
    }

    /// The adaptation target `p`.
    pub fn target_p(&self) -> (r: usize)
        ensures
            r == self.lists().4,
    {
        self.p
    }

    /// The lengths of `t1`, `t2`, `b1`, `b2`.
    pub fn list_sizes(&self) -> (r: (usize, usize, usize, usize))
        requires
            self.arc_valid(),
        ensures
            r.0 == self.lists().0.len(),
            r.1 == self.lists().1.len(),
            r.2 == self.lists().2.len(),
            r.3 == self.lists().3.len(),
            r.0 + r.1 <= self.c_val(),
            r.2 == 0 || r.0 + r.2 <= self.c_val(),
            r.3 == 0 || r.0 + r.1 + r.2 + r.3 <= 2 * self.c_val(),
    {
        proof {
            lemma_keys_of(self.t1@);
            lemma_keys_of(self.t2@);
            lemma_keys_of(self.b1@);
            lemma_keys_of(self.b2@);
        }
        (self.t1.len(), self.t2.len(), self.b1.len(), self.b2.len())
    }

}


impl<K: CacheKey> Arc<K> {
    proof fn lemma_views(&self)
        requires
            self.t1.wf(),
            self.t2.wf(),
            self.b1.wf(),
            self.b2.wf(),
        ensures
            forall|k: K| #[trigger] self.lists().0.contains(k) <==> has_key(self.t1@, k),
            forall|k: K| #[trigger] self.lists().1.contains(k) <==> has_key(self.t2@, k),
            forall|k: K| #[trigger] self.lists().2.contains(k) <==> has_key(self.b1@, k),
            forall|k: K| #[trigger] self.lists().3.contains(k) <==> has_key(self.b2@, k),
            self.lists().0.len() == self.t1@.len(),
            self.lists().1.len() == self.t2@.len(),
            self.lists().2.len() == self.b1@.len(),
            self.lists().3.len() == self.b2@.len(),
            forall|k: K| has_key(self.t1@, k) ==> self.lists().0.index_of(k) == pos_of(self.t1@, k),
            forall|k: K| has_key(self.t2@, k) ==> self.lists().1.index_of(k) == pos_of(self.t2@, k),
            forall|k: K| has_key(self.b1@, k) ==> self.lists().2.index_of(k) == pos_of(self.b1@, k),
            forall|k: K| has_key(self.b2@, k) ==> self.lists().3.index_of(k) == pos_of(self.b2@, k),
    {
        lemma_keys_of(self.t1@);
        lemma_keys_of(self.t2@);
        lemma_keys_of(self.b1@);
        lemma_keys_of(self.b2@);
    }

    /// Demotes one resident key to its ghost list (see `arc_replace`).
    fn replace(&mut self, x_in_b2: bool) -> (r: Option<K>)
        requires
            old(self).t1.wf(),
            old(self).t2.wf(),
            old(self).b1.wf(),
            old(self).b2.wf(),
            lists_valid_loose(old(self).c as nat, old(self).lists()),
        ensures
            final(self).t1.wf(),
            final(self).t2.wf(),
            final(self).b1.wf(),
            final(self).b2.wf(),
            final(self).c == old(self).c,
            (final(self).lists(), r) == arc_replace(old(self).lists(), x_in_b2),
    {
        let ghost st = self.lists();
        proof {
            self.lemma_views();
        }
        let t1_len = self.t1.len();
        if t1_len > 0 && (t1_len > self.p || (x_in_b2 && t1_len == self.p) || self.t2.len() == 0) {
            let ghost s1 = self.t1@;
            let ghost s2 = self.b1@;
            match self.t1.pop_front() {
                Some((k, _)) => {
                    proof {
                        lemma_keys_edit(s1);
                        assert(st.0.contains(k));
                        assert(!has_key(s2, k));
                    }
                    self.b1.push_back(k, ());
                    proof {
                        lemma_keys_edit(s2);
                    }
                    Some(k)
                },
                None => None,
            }
        } else {
            let ghost s1 = self.t2@;
            let ghost s2 = self.b2@;
            match self.t2.pop_front() {
                Some((k, _)) => {
                    proof {
                        lemma_keys_edit(s1);
                        assert(st.1.contains(k));
                        assert(!has_key(s2, k));
                    }
                    self.b2.push_back(k, ());
                    proof {
                        lemma_keys_edit(s2);
                    }
                    Some(k)
                },
                None => None,
            }
        }
    }

    /// One access under ARC: a hit promotes the key to the back of `t2`; a
    /// miss follows `arc_miss`.
    pub fn access_arc(&mut self, key: K) -> (out: AccessOutcome<K>)
        requires
            old(self).arc_valid(),
        ensures
            final(self).arc_valid(),
            final(self).c_val() == old(self).c_val(),
            out.hit == (old(self).lists().0.contains(key) || old(self).lists().1.contains(key)),
            out.hit ==> out.evicted is None && final(self).lists() == arc_hit(old(self).lists(), key),
            !out.hit ==> (final(self).lists(), out.evicted) == arc_miss(old(self).c_val(), old(self).lists(), key),
    {
        let ghost st = self.lists();
        let ghost c = self.c as nat;
        proof {
            self.lemma_views();
        }
        let ghost t1v = self.t1@;
        let ghost t2v = self.t2@;
        let in_t1 = self.t1.remove(&key).is_some();
        let ghost t2w = self.t2@;
        let hit = if in_t1 {
            true
        } else {
            self.t2.remove(&key).is_some()
        };
        if hit {
            proof {
                lemma_keys_edit(t1v);
                lemma_keys_edit(t2v);
                lemma_hit_valid(c, st, key);
                if in_t1 {
                    lemma_pos_of(t1v, key);
                    assert(!has_key(self.t2@, key)) by {
                        assert(st.0.contains(key));
                    }
                } else {
                    lemma_pos_of(t2v, key);
                    lemma_remove_unique_keys(t2v, pos_of(t2v, key));
                }
            }
            let ghost t2x = self.t2@;
            self.t2.push_back(key, ());
            proof {
                lemma_keys_edit(t2x);
                assert(self.lists() == arc_hit(st, key));
            }
            return AccessOutcome { hit: true, evicted: None };
        }
        proof {
            assert(self.t1@ == t1v);
            assert(self.t2@ == t2v);
            assert(self.lists() == st);
            lemma_valid_bounds(c, st);
        }
        let in_b1 = self.b1.contains(&key);
        let in_b2 = self.b2.contains(&key);
        self.adapt_target(in_b1, in_b2, Ghost(key));
        let ghost a = (st.0, st.1, st.2, st.3, arc_adapt(c, st, key));
        proof {
            assert(lists_valid_loose(c, a));
        }
        let evicted = if self.t1.len() + self.t2.len() >= self.c {
            proof {
                lemma_replace_valid(c, a, in_b2);
            }
            self.replace(in_b2)
        } else {
            None
        };
        let ghost r = self.lists();
        proof {
            self.lemma_views();
            assert(lists_valid_loose(c, r));
            assert(!r.0.contains(key));
            assert(!r.1.contains(key));
            lemma_enter_valid(c, r, key, in_b1, in_b2);
        }
        self.enter_key(key, in_b1, in_b2);
        let ghost adm = arc_enter(r, key, in_b1, in_b2);
        self.trim_ghosts();
        proof {
            lemma_miss_valid(c, st, key);
        }
        AccessOutcome { hit: false, evicted }
    }
}


impl<K: CacheKey> Arc<K> {
    /// Moves the target `p` after a ghost hit (see `arc_adapt`).
    fn adapt_target(&mut self, in_b1: bool, in_b2: bool, Ghost(key): Ghost<K>)
        requires
            old(self).t1.wf(),
            old(self).t2.wf(),
            old(self).b1.wf(),
            old(self).b2.wf(),
            1 <= old(self).c <= usize::MAX / 2,
            lists_valid(old(self).c as nat, old(self).lists()),
            in_b1 == old(self).lists().2.contains(key),
            in_b2 == old(self).lists().3.contains(key),
        ensures
            final(self).t1 == old(self).t1,
            final(self).t2 == old(self).t2,
            final(self).b1 == old(self).b1,
            final(self).b2 == old(self).b2,
            final(self).c == old(self).c,
            final(self).lists() == (old(self).lists().0, old(self).lists().1, old(self).lists().2, old(self).lists().3, arc_adapt(old(self).c as nat, old(self).lists(), key)),
    {
        proof {
            self.lemma_views();
            lemma_valid_bounds(self.c as nat, self.lists());
        }
        if in_b1 {
            let b1l = self.b1.len();
            let den = if b1l == 0 {
                1
            } else {
                b1l
            };
            let b2l = self.b2.len();
            let q = b2l / den;
            let delta = if q == 0 {
                1
            } else {
                q
            };
            proof {
                assert(q <= b2l) by (nonlinear_arith)
                    requires
                        den >= 1,
                        q == b2l / den,
                ;
            }
            self.p = if delta <= self.c - self.p {
                self.p + delta
            } else {
                self.c
            };
        } else if in_b2 {
            let b2l = self.b2.len();
            let den = if b2l == 0 {
                1
            } else {
                b2l
            };
            let q = self.b1.len() / den;
            let delta = if q == 0 {
                1
            } else {
                q
            };
            self.p = if delta <= self.p {
                self.p - delta
            } else {
                0
            };
        }
    }

    /// Enters the missed key (see `arc_enter`).
    fn enter_key(&mut self, key: K, in_b1: bool, in_b2: bool)
        requires
            old(self).t1.wf(),
            old(self).t2.wf(),
            old(self).b1.wf(),
            old(self).b2.wf(),
            lists_valid_loose(old(self).c as nat, old(self).lists()),
            !old(self).lists().0.contains(key),
            !old(self).lists().1.contains(key),
            !(in_b1 && in_b2),
            in_b1 == old(self).lists().2.contains(key),
            in_b2 == old(self).lists().3.contains(key),
        ensures
            final(self).t1.wf(),
            final(self).t2.wf(),
            final(self).b1.wf(),
            final(self).b2.wf(),
            final(self).c == old(self).c,
            final(self).lists() == arc_enter(old(self).lists(), key, in_b1, in_b2),
    {
        proof {
            self.lemma_views();
        }
        let ghost vt1 = self.t1@;
        let ghost vt2 = self.t2@;
        let ghost vb1 = self.b1@;
        let ghost vb2 = self.b2@;
        if in_b1 {
            self.b1.remove(&key);
            proof {
                lemma_pos_of(vb1, key);
            }
            self.t2.push_back(key, ());
        } else if in_b2 {
            self.b2.remove(&key);
            proof {
                lemma_pos_of(vb2, key);
            }
            self.t2.push_back(key, ());
        } else {
            self.t1.push_back(key, ());
        }
        proof {
            lemma_keys_edit(vt1);
            lemma_keys_edit(vt2);
            lemma_keys_edit(vb1);
            lemma_keys_edit(vb2);
        }
    }

    /// Trims the ghost lists (see `arc_trim`).
    fn trim_ghosts(&mut self)
        requires
            old(self).t1.wf(),
            old(self).t2.wf(),
            old(self).b1.wf(),
            old(self).b2.wf(),
            1 <= old(self).c <= usize::MAX / 2,
            lists_valid_loose(old(self).c as nat, old(self).lists()),
            old(self).lists().0.len() + old(self).lists().1.len() <= old(self).c + 1,
            old(self).lists().2.len() <= old(self).c + 1,
            old(self).lists().3.len() <= 2 * old(self).c + 1,
        ensures
            final(self).t1.wf(),
            final(self).t2.wf(),
            final(self).b1.wf(),
            final(self).b2.wf(),
            final(self).c == old(self).c,
            final(self).lists() == arc_trim(old(self).c as nat, old(self).lists()),
    {
        let ghost adm = self.lists();
        let ghost c = self.c as nat;
        proof {
            self.lemma_views();
        }
        let ghost mut j: int = 0;
        while (self.t1.len() > self.c || self.b1.len() > self.c - self.t1.len()) && !self.b1.is_empty()
            invariant
                self.t1.wf(),
                self.t2.wf(),
                self.b1.wf(),
                self.b2.wf(),
                self.c == c,
                1 <= c <= usize::MAX / 2,
                keys_of(self.t1@) == adm.0,
                keys_of(self.t2@) == adm.1,
                keys_of(self.b2@) == adm.3,
                self.p == adm.4,
                self.t1@.len() == adm.0.len(),
                adm.0.len() <= c + 1,
                adm.2.len() <= c + 1,
                0 <= j <= adm.2.len(),
                keys_of(self.b1@) == adm.2.skip(j),
                self.b1@.len() == adm.2.len() - j,
                j <= trim_count(adm.0.len() + adm.2.len() - c, adm.2.len()),
            decreases self.b1@.len(),
        {
            let ghost vb = self.b1@;
            self.b1.pop_front();
            proof {
                lemma_keys_edit(vb);
                assert(adm.2.skip(j).drop_first() =~= adm.2.skip(j + 1));
                j = j + 1;
            }
        }
        let ghost n1 = j;
        proof {
            assert(j == trim_count(adm.0.len() + adm.2.len() - c, adm.2.len()));
        }
        let ghost mut j2: int = 0;
        while (self.t1.len() + self.t2.len() + self.b1.len() > 2 * self.c || self.b2.len() > 2 * self.c - (
        self.t1.len() + self.t2.len() + self.b1.len())) && !self.b2.is_empty()
            invariant
                self.t1.wf(),
                self.t2.wf(),
                self.b1.wf(),
                self.b2.wf(),
                self.c == c,
                1 <= c <= usize::MAX / 2,
                keys_of(self.t1@) == adm.0,
                keys_of(self.t2@) == adm.1,
                keys_of(self.b1@) == adm.2.skip(n1),
                self.p == adm.4,
                self.t1@.len() + self.t2@.len() <= c + 1,
                self.b1@.len() <= c,
                adm.3.len() <= 2 * c + 1,
                0 <= j2 <= adm.3.len(),
                keys_of(self.b2@) == adm.3.skip(j2),
                self.b2@.len() == adm.3.len() - j2,
                j2 <= trim_count(adm.0.len() + adm.1.len() + adm.2.skip(n1).len() + adm.3.len() - 2 * c, adm.3.len()),
            decreases self.b2@.len(),
        {
            let ghost vb = self.b2@;
            self.b2.pop_front();
            proof {
                lemma_keys_edit(vb);
                assert(adm.3.skip(j2).drop_first() =~= adm.3.skip(j2 + 1));
                j2 = j2 + 1;
            }
        }
        proof {
            self.lemma_views();
            assert(self.lists() == arc_trim(c, adm));
        }
    }
}


impl<K: CacheKey> Arc<K> {
    /// Takes `key` out of all four lists; returns whether it was resident.
    pub fn remove_arc(&mut self, key: &K) -> (r: bool)
        requires
            old(self).arc_valid(),
        ensures
            final(self).arc_valid(),
            final(self).c_val() == old(self).c_val(),
            r == (old(self).lists().0.contains(*key) || old(self).lists().1.contains(*key)),
            final(self).lists() == arc_remove(old(self).lists(), *key),
    {
        proof {
            self.lemma_views();
        }
        let ghost st = self.lists();
        let ghost vt1 = self.t1@;
        let ghost vt2 = self.t2@;
        let ghost vb1 = self.b1@;
        let ghost vb2 = self.b2@;
        let in_t1 = self.t1.remove(key).is_some();
        let resident = if in_t1 {
            true
        } else {
            self.t2.remove(key).is_some()
        };
        self.b1.remove(key);
        self.b2.remove(key);
        proof {
            lemma_keys_edit(vt1);
            lemma_keys_edit(vt2);
            lemma_keys_edit(vb1);
            lemma_keys_edit(vb2);
            if has_key(vt1, *key) {
                lemma_pos_of(vt1, *key);
            }
            if has_key(vt2, *key) {
                lemma_pos_of(vt2, *key);
                if in_t1 {
                    assert(st.0.contains(*key));
                    assert(st.1.contains(*key));
                }
            }
            if has_key(vb1, *key) {
                lemma_pos_of(vb1, *key);
            }
            if has_key(vb2, *key) {
                lemma_pos_of(vb2, *key);
            }
            assert(self.lists() == arc_remove(st, *key));
            lemma_remove_valid(self.c as nat, st, *key);
        }
        resident
    }
}

impl<K: CacheKey> Arc<K> {
    /// `next` is this cache after an access of `key`: `arc_hit` when the key
    /// is resident, `arc_miss` otherwise.
    pub open spec fn arc_accessed(&self, next: Self, key: K) -> bool {
        let st = self.lists();
        &&& next.c_val() == self.c_val()
        &&& next.lists() == if st.0.contains(key) || st.1.contains(key) {
            arc_hit(st, key)
        } else {
            arc_miss(self.c_val(), st, key).0
        }
    }

    /// `next` is this cache with `key` taken out of all four lists.
    pub open spec fn arc_removed(&self, next: Self, key: K) -> bool {
        &&& next.c_val() == self.c_val()
        &&& next.lists() == arc_remove(self.lists(), key)
    }

    /// An ARC cache never holds more keys than its capacity, which is at
    /// least one.
    pub proof fn lemma_within_capacity(&self)
        requires
            self.valid(),
        ensures
            self.resident().finite(),
            self.resident().len() <= self.cap(),
            self.cap() >= 1,
    {
        lemma_resident_count(self.c as nat, self.lists());
        lemma_valid_bounds(self.c as nat, self.lists());
    }

    /// The resident keys are exactly those of `t1` and `t2`; the four lists
    /// keep the ARC invariants (`lists_valid`: no duplicates, pairwise
    /// disjoint, `p <= c`, `t1 + t2 <= c`, ghost lists trimmed).
    pub proof fn lemma_lists_are_resident(&self)
        requires
            self.valid(),
        ensures
            lists_valid(self.c_val(), self.lists()),
            self.cap() == self.c_val(),
            self.resident().finite(),
            self.resident().len() == self.lists().0.len() + self.lists().1.len(),
            forall|k: K| #[trigger]
                self.resident().contains(k) <==> (self.lists().0.contains(k) || self.lists().1.contains(
                    k,
                )),
    {
        lemma_resident_count(self.c as nat, self.lists());
    }

    /// The target `p` stays within `0..=c`, and only a ghost hit moves it: a
    /// key found in `b1` can only raise it, one found in `b2` can only lower
    /// it, and every other access leaves it unchanged.
    pub proof fn lemma_target_moves_on_ghost_hits(&self, next: Self, key: K)
        requires
            self.valid(),
            self.arc_accessed(next, key),
        ensures
            next.lists().4 <= next.c_val(),
            !self.lists().2.contains(key) && !self.lists().3.contains(key) ==> next.lists().4
                == self.lists().4,
            self.lists().2.contains(key) ==> next.lists().4 >= self.lists().4,
            self.lists().3.contains(key) ==> next.lists().4 <= self.lists().4,
    {
        let st = self.lists();
        let c = self.c_val();
        if st.0.contains(key) || st.1.contains(key) {
            assert(!st.2.contains(key) && !st.3.contains(key));
            assert(next.lists().4 == st.4);
        } else {
            let a = (st.0, st.1, st.2, st.3, arc_adapt(c, st, key));
            let (r, ev) = if st.0.len() + st.1.len() >= c {
                arc_replace(a, st.3.contains(key))
            } else {
                (a, None)
            };
            assert(r.4 == a.4);
            assert(arc_enter(r, key, st.2.contains(key), st.3.contains(key)).4 == r.4);
            assert(next.lists().4 == arc_adapt(c, st, key));
        }
    }

    /// The resident keys are the keys of `t1` and `t2`.
    pub proof fn lemma_resident_is_t1_t2(&self)
        ensures
            self.resident() == (self.lists().0 + self.lists().1).to_set(),
    {
    }

    /// The capacity is `c`.
    pub proof fn lemma_cap_is_c(&self)
        ensures
            self.cap() == self.c_val(),
    {
    }

    /// ARC's adaptation rule: a ghost hit in `b1` raises the target by
    /// `max(1, |b2| / |b1|)` (integer division), but not past `c`; a ghost hit
    /// in `b2` lowers it by `max(1, |b1| / |b2|)`, but not below zero.
    pub proof fn lemma_ghost_hit_adaptation(&self, next: Self, key: K)
        requires
            self.valid(),
            self.arc_accessed(next, key),
        ensures
            self.lists().2.contains(key) ==> {
                let grow = self.lists().3.len() / self.lists().2.len();
                let d = if grow == 0 { 1 } else { grow };
                next.lists().4 == if self.lists().4 + d <= self.c_val() {
                    self.lists().4 + d
                } else {
                    self.c_val()
                }
            },
            self.lists().3.contains(key) ==> {
                let shrink = self.lists().2.len() / self.lists().3.len();
                let d = if shrink == 0 { 1 } else { shrink };
                next.lists().4 == if d <= self.lists().4 {
                    self.lists().4 - d
                } else {
                    0
                }
            },
    {
        let st = self.lists();
        let c = self.c_val();
        if st.2.contains(key) || st.3.contains(key) {
            assert(!st.0.contains(key) && !st.1.contains(key));
            let a = (st.0, st.1, st.2, st.3, arc_adapt(c, st, key));
            let (r, ev) = if st.0.len() + st.1.len() >= c {
                arc_replace(a, st.3.contains(key))
            } else {
                (a, None)
            };
            assert(r.4 == a.4);
            assert(arc_enter(r, key, st.2.contains(key), st.3.contains(key)).4 == r.4);
            assert(next.lists().4 == arc_adapt(c, st, key));
            assert(st.2.contains(key) ==> st.2.len() > 0);
            assert(st.3.contains(key) ==> st.3.len() > 0);
            assert(!(st.2.contains(key) && st.3.contains(key)));
        }
    }

    /// An invalidation leaves the target `p` unchanged.
    pub proof fn lemma_remove_keeps_target(&self, next: Self, key: K)
        requires
            self.arc_removed(next, key),
        ensures
            next.lists().4 == self.lists().4,
    {
    }
}

impl<K: CacheKey> ReplacementPolicy<K> for Arc<K> {
    open spec fn valid(&self) -> bool {
        self.arc_valid()
    }

    closed spec fn resident(&self) -> Set<K> {
        (self.lists().0 + self.lists().1).to_set()
    }

    closed spec fn cap(&self) -> nat {
        self.c as nat
    }

    fn access(&mut self, key: K) -> (out: AccessOutcome<K>)
        ensures
            old(self).arc_accessed(*final(self), key),
    {
        let ghost st = self.lists();
        proof {
            lemma_resident_count(self.c as nat, st);
        }
        let out = self.access_arc(key);
        proof {
            let st2 = self.lists();
            lemma_resident_count(self.c as nat, st2);
            if out.hit {
                let (t1, t2, b1, b2, p) = st;
                assert(self.resident() =~= old(self).resident()) by {
                    if t1.contains(key) {
                        lemma_remove_within(t1, t1.index_of(key));
                        lemma_push_within(t2, key);
                    } else {
                        lemma_remove_within(t2, t2.index_of(key));
                        lemma_push_within(t2.remove(t2.index_of(key)), key);
                    }
                }
            } else {
                lemma_miss_valid(self.c as nat, st, key);
                match out.evicted {
                    Some(v) => {
                        assert(self.resident() =~= old(self).resident().remove(v).insert(key));
                    },
                    None => {
                        assert(self.resident() =~= old(self).resident().insert(key));
                    },
                }
            }
        }
        out
    }

    fn remove(&mut self, key: &K) -> (r: bool)
        ensures
            old(self).arc_removed(*final(self), *key),
    {
        let ghost st = self.lists();
        let r = self.remove_arc(key);
        proof {
            lemma_resident_count(self.c as nat, st);
            lemma_resident_count(self.c as nat, self.lists());
            lemma_drop_key(st.0, *key);
            lemma_drop_key(st.1, *key);
            assert(self.resident() =~= old(self).resident().remove(*key));
        }
        r
    }

    fn len(&self) -> (r: usize) {
        proof {
            self.lemma_views();
            lemma_resident_count(self.c as nat, self.lists());
        }
        self.t1.len() + self.t2.len()
    }

    fn capacity(&self) -> (r: usize) {
        self.c
    }

    fn name(&self) -> (r: &'static str)
        ensures
            r@ == "arc"@,
    {
        "arc"
    }

    fn contains(&self, key: &K) -> (r: bool) {
        proof {
            self.lemma_views();
            lemma_resident_count(self.c as nat, self.lists());
        }
        self.t1.contains(key) || self.t2.contains(key)
    }
}

} // verus!
