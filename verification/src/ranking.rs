//! Selection by rank: picking the least key above a floor, and listing the
//! chosen positions of a key table in ascending order.
//!
//! Keys are compared by a strict weak order; positions that hold equivalent
//! keys are told apart by their index, so the order on positions is total and
//! every listing is stable.

use vstd::prelude::*;

verus! {

/// A key type with a strict weak order.
pub trait Ranked: Sized {
    /// `self` sorts strictly before `other`.
    spec fn precedes(&self, other: &Self) -> bool;

    fn comes_before(&self, other: &Self) -> (r: bool)
        ensures
            r == self.precedes(other),
    ;

    /// `precedes` is irreflexive and transitive, and so is its complement.
    proof fn lemma_strict_weak_order(a: &Self, b: &Self, c: &Self)
        ensures
            !a.precedes(a),
            a.precedes(b) && b.precedes(c) ==> a.precedes(c),
            !a.precedes(b) && !b.precedes(c) ==> !a.precedes(c),
    ;
}

/// A key of three integers, ordered lexicographically.
#[derive(Clone, Copy, Debug)]
pub struct Key3 {
    pub a: i64,
    pub b: i64,
    pub c: i64,
}

impl Ranked for Key3 {
    open spec fn precedes(&self, other: &Self) -> bool {
        self.a < other.a || (self.a == other.a && (self.b < other.b || (self.b == other.b && self.c
            < other.c)))
    }

    fn comes_before(&self, other: &Self) -> (r: bool) {
        self.a < other.a || (self.a == other.a && (self.b < other.b || (self.b == other.b && self.c
            < other.c)))
    }

    proof fn lemma_strict_weak_order(a: &Self, b: &Self, c: &Self) {
    }
}

/// Position `i` sorts before position `j`: by key, and by index among equivalent keys.
pub open spec fn ahead<K: Ranked>(keys: Seq<K>, i: int, j: int) -> bool {
    keys[i].precedes(&keys[j]) || (!keys[j].precedes(&keys[i]) && i < j)
}

/// `ahead` is a strict total order on positions.
pub proof fn lemma_ahead_total<K: Ranked>(keys: Seq<K>, i: int, j: int, k: int)
    ensures
        !ahead(keys, i, i),
        i != j ==> (ahead(keys, i, j) <==> !ahead(keys, j, i)),
        ahead(keys, i, j) && ahead(keys, j, k) ==> ahead(keys, i, k),
{
    K::lemma_strict_weak_order(&keys[i], &keys[j], &keys[k]);
    K::lemma_strict_weak_order(&keys[i], &keys[k], &keys[j]);
    K::lemma_strict_weak_order(&keys[j], &keys[i], &keys[k]);
    K::lemma_strict_weak_order(&keys[j], &keys[k], &keys[i]);
    K::lemma_strict_weak_order(&keys[k], &keys[i], &keys[j]);
    K::lemma_strict_weak_order(&keys[k], &keys[j], &keys[i]);
    K::lemma_strict_weak_order(&keys[i], &keys[j], &keys[i]);
    K::lemma_strict_weak_order(&keys[j], &keys[i], &keys[j]);
}

/// Position `j` lies strictly above the floor; without a floor every position does.
pub open spec fn beyond<K: Ranked>(keys: Seq<K>, floor: Option<int>, j: int) -> bool {
    match floor {
        None => true,
        Some(f) => ahead(keys, f, j),
    }
}

/// `j` is a chosen position above the floor.
pub open spec fn eligible_at<K: Ranked>(keys: Seq<K>, ok: Seq<bool>, floor: Option<int>, j: int) -> bool {
    0 <= j < keys.len() && ok[j] && beyond(keys, floor, j)
}

/// `r` is the least chosen position above the floor, or `None` where there is none.
pub open spec fn is_least_beyond<K: Ranked>(
    keys: Seq<K>,
    ok: Seq<bool>,
    floor: Option<int>,
    r: Option<int>,
) -> bool {
    match r {
        Some(i) => eligible_at(keys, ok, floor, i) && forall|j: int|
            #[trigger] eligible_at(keys, ok, floor, j) && j != i ==> ahead(keys, i, j),
        None => forall|j: int| !#[trigger] eligible_at(keys, ok, floor, j),
    }
}

/// At most one answer satisfies `is_least_beyond`.
pub proof fn lemma_least_beyond_unique<K: Ranked>(
    keys: Seq<K>,
    ok: Seq<bool>,
    floor: Option<int>,
    r1: Option<int>,
    r2: Option<int>,
)
    requires
        is_least_beyond(keys, ok, floor, r1),
        is_least_beyond(keys, ok, floor, r2),
    ensures
        r1 == r2,
{
    match (r1, r2) {
        (Some(i), Some(j)) => {
            assert(eligible_at(keys, ok, floor, i));
            assert(eligible_at(keys, ok, floor, j));
            lemma_ahead_total(keys, i, j, i);
        },
        (Some(i), None) => {
            assert(eligible_at(keys, ok, floor, i));
        },
        (None, Some(j)) => {
            assert(eligible_at(keys, ok, floor, j));
        },
        (None, None) => {},
    }
}

/// The least chosen position above the floor.
pub open spec fn least_beyond_of<K: Ranked>(keys: Seq<K>, ok: Seq<bool>, floor: Option<int>) -> Option<int> {
    if exists|i: int| is_least_beyond(keys, ok, floor, Some(i)) {
        Some(choose|i: int| is_least_beyond(keys, ok, floor, Some(i)))
    } else {
        None
    }
}

/// The least chosen position above the floor among the first `m` positions.
pub open spec fn least_among<K: Ranked>(keys: Seq<K>, ok: Seq<bool>, floor: Option<int>, m: int) -> Option<int>
    decreases m,
{
    if m <= 0 {
        None
    } else {
        let rest = least_among(keys, ok, floor, m - 1);
        if eligible_at(keys, ok, floor, m - 1) && (rest is None || ahead(keys, m - 1, rest->0)) {
            Some(m - 1)
        } else {
            rest
        }
    }
}

proof fn lemma_least_among<K: Ranked>(keys: Seq<K>, ok: Seq<bool>, floor: Option<int>, m: int)
    requires
        0 <= m <= keys.len(),
    ensures
        match least_among(keys, ok, floor, m) {
            Some(i) => 0 <= i < m && eligible_at(keys, ok, floor, i) && forall|j: int|
                0 <= j < m && #[trigger] eligible_at(keys, ok, floor, j) && j != i ==> ahead(keys, i, j),
            None => forall|j: int| 0 <= j < m ==> !#[trigger] eligible_at(keys, ok, floor, j),
        },
    decreases m,
{
    if m > 0 {
        lemma_least_among(keys, ok, floor, m - 1);
        let rest = least_among(keys, ok, floor, m - 1);
        let p = m - 1;
        if let Some(b) = rest {
            if eligible_at(keys, ok, floor, p) && ahead(keys, p, b) {
                assert forall|j: int|
                    0 <= j < m && #[trigger] eligible_at(keys, ok, floor, j) && j != p implies ahead(
                    keys,
                    p,
                    j,
                ) by {
                    lemma_ahead_total(keys, p, b, j);
                }
            } else {
                lemma_ahead_total(keys, p, b, p);
            }
        }
    }
}

/// Every table has a least chosen position above a floor, or none at all.
pub proof fn lemma_least_beyond_exists<K: Ranked>(keys: Seq<K>, ok: Seq<bool>, floor: Option<int>)
    ensures
        is_least_beyond(keys, ok, floor, least_beyond_of(keys, ok, floor)),
{
    let n = keys.len() as int;
    lemma_least_among(keys, ok, floor, n);
    let r = least_among(keys, ok, floor, n);
    assert(is_least_beyond(keys, ok, floor, r));
    match r {
        Some(i) => {
            let c = choose|i: int| is_least_beyond(keys, ok, floor, Some(i));
            lemma_least_beyond_unique(keys, ok, floor, r, Some(c));
        },
        None => {
            assert forall|i: int| !is_least_beyond(keys, ok, floor, Some(i)) by {
                if is_least_beyond(keys, ok, floor, Some(i)) {
                    lemma_least_beyond_unique(keys, ok, floor, r, Some(i));
                }
            }
        },
    }
}

pub open spec fn index_view(o: Option<usize>) -> Option<int> {
    match o {
        Some(i) => Some(i as int),
        None => None,
    }
}

pub fn is_ahead<K: Ranked>(keys: &Vec<K>, i: usize, j: usize) -> (r: bool)
    requires
        i < keys.len(),
        j < keys.len(),
    ensures
        r == ahead(keys@, i as int, j as int),
{
    keys[i].comes_before(&keys[j]) || (!keys[j].comes_before(&keys[i]) && i < j)
}

/// Finds the least chosen position above the floor by one pass over the table.
pub fn least_beyond<K: Ranked>(keys: &Vec<K>, ok: &Vec<bool>, floor: Option<usize>) -> (r: Option<usize>)
    requires
        ok.len() == keys.len(),
        floor matches Some(f) ==> f < keys.len(),
    ensures
        is_least_beyond(keys@, ok@, index_view(floor), index_view(r)),
        index_view(r) == least_beyond_of(keys@, ok@, index_view(floor)),
{
    let n = keys.len();
    let ghost fl = index_view(floor);
    let mut best: Option<usize> = None;
    let mut j: usize = 0;
    while j < n
        invariant
            0 <= j <= n,
            n == keys.len(),
            ok.len() == keys.len(),
            fl == index_view(floor),
            floor matches Some(f) ==> f < keys.len(),
            best matches Some(b) ==> b < j && eligible_at(keys@, ok@, fl, b as int),
            best matches Some(b) ==> forall|k: int|
                0 <= k < j && #[trigger] eligible_at(keys@, ok@, fl, k) && k != b ==> ahead(
                    keys@,
                    b as int,
                    k,
                ),
            best is None ==> forall|k: int| 0 <= k < j ==> !#[trigger] eligible_at(keys@, ok@, fl, k),
        decreases n - j,
    {
        let above = match floor {
            None => true,
            Some(f) => is_ahead(keys, f, j),
        };
        if ok[j] && above {
            let better = match best {
                None => true,
                Some(b) => is_ahead(keys, j, b),
            };
            if better {
                proof {
                    if let Some(b) = best {
                        assert forall|k: int|
                            0 <= k < j + 1 && #[trigger] eligible_at(keys@, ok@, fl, k) && k
                                != j implies ahead(keys@, j as int, k) by {
                            lemma_ahead_total(keys@, j as int, b as int, k);
                        }
                    }
                }
                best = Some(j);
            } else {
                proof {
                    let b = best->0;
                    lemma_ahead_total(keys@, j as int, b as int, j as int);
                }
            }
        }
        j += 1;
    }
    proof {
        let r = index_view(best);
        assert(is_least_beyond(keys@, ok@, fl, r));
        if let Some(b) = best {
            assert(is_least_beyond(keys@, ok@, fl, Some(b as int)));
            let c = choose|i: int| is_least_beyond(keys@, ok@, fl, Some(i));
            lemma_least_beyond_unique(keys@, ok@, fl, r, Some(c));
        } else {
            assert forall|i: int| !is_least_beyond(keys@, ok@, fl, Some(i)) by {
                if is_least_beyond(keys@, ok@, fl, Some(i)) {
                    lemma_least_beyond_unique(keys@, ok@, fl, r, Some(i));
                }
            }
        }
    }
    best
}

/// How many of the first `upto` positions are chosen and lie above the floor.
pub open spec fn count_beyond<K: Ranked>(keys: Seq<K>, ok: Seq<bool>, floor: Option<int>, upto: int) -> nat
    decreases upto,
{
    if upto <= 0 {
        0
    } else {
        count_beyond(keys, ok, floor, upto - 1) + if eligible_at(keys, ok, floor, upto - 1) {
            1nat
        } else {
            0nat
        }
    }
}

/// Raising the floor to the least position above it leaves exactly one position fewer above the floor.
pub proof fn lemma_count_exact<K: Ranked>(keys: Seq<K>, ok: Seq<bool>, floor: Option<int>, i: int, upto: int)
    requires
        is_least_beyond(keys, ok, floor, Some(i)),
        0 <= upto <= keys.len(),
    ensures
        count_beyond(keys, ok, Some(i), upto) + (if i < upto { 1nat } else { 0nat }) == count_beyond(
            keys,
            ok,
            floor,
            upto,
        ),
    decreases upto,
{
    if upto > 0 {
        lemma_count_exact(keys, ok, floor, i, upto - 1);
        let p = upto - 1;
        lemma_ahead_total(keys, i, p, i);
        if let Some(f) = floor {
            lemma_ahead_total(keys, f, i, p);
        }
        if eligible_at(keys, ok, floor, p) && p != i {
            assert(ahead(keys, i, p));
        }
    }
}

/// Where no chosen position lies above the floor, none is counted.
pub proof fn lemma_count_none<K: Ranked>(keys: Seq<K>, ok: Seq<bool>, floor: Option<int>, upto: int)
    requires
        is_least_beyond(keys, ok, floor, None),
    ensures
        count_beyond(keys, ok, floor, upto) == 0,
    decreases upto,
{
    if upto > 0 {
        lemma_count_none(keys, ok, floor, upto - 1);
        assert(!eligible_at(keys, ok, floor, upto - 1));
    }
}

/// Where every position is chosen, every position is counted.
pub proof fn lemma_count_all<K: Ranked>(keys: Seq<K>, ok: Seq<bool>, upto: int)
    requires
        0 <= upto <= keys.len(),
        forall|j: int| 0 <= j < upto ==> #[trigger] ok[j],
    ensures
        count_beyond(keys, ok, None, upto) == upto,
    decreases upto,
{
    if upto > 0 {
        lemma_count_all(keys, ok, upto - 1);
        assert(ok[upto - 1]);
    }
}

/// Position `j` occurs in the listing `s`.
pub open spec fn listed(s: Seq<usize>, j: int) -> bool {
    exists|k: int| 0 <= k < s.len() && #[trigger] s[k] as int == j
}

/// `s` lists exactly the chosen positions, each once, in ascending order.
pub open spec fn is_ranking<K: Ranked>(keys: Seq<K>, ok: Seq<bool>, s: Seq<usize>) -> bool {
    &&& ok.len() == keys.len()
    &&& forall|k: int| 0 <= k < s.len() ==> (#[trigger] s[k] as int) < keys.len() && ok[s[k] as int]
    &&& forall|a: int, b: int|
        0 <= a < b < s.len() ==> ahead(keys, #[trigger] s[a] as int, #[trigger] s[b] as int)
    &&& forall|j: int| 0 <= j < keys.len() && #[trigger] ok[j] ==> listed(s, j)
}

proof fn lemma_ranking_prefix<K: Ranked>(keys: Seq<K>, ok: Seq<bool>, s1: Seq<usize>, s2: Seq<usize>, m: nat)
    requires
        is_ranking(keys, ok, s1),
        is_ranking(keys, ok, s2),
        m <= s1.len(),
        m <= s2.len(),
    ensures
        forall|k: int| 0 <= k < m ==> s1[k] == s2[k],
    decreases m,
{
    if m > 0 {
        lemma_ranking_prefix(keys, ok, s1, s2, (m - 1) as nat);
        let i = m - 1;
        let a = s1[i] as int;
        let b = s2[i] as int;
        assert(ok[a]);
        assert(listed(s2, a));
        let j = choose|j: int| 0 <= j < s2.len() && #[trigger] s2[j] as int == a;
        assert(ok[b]);
        assert(listed(s1, b));
        let j2 = choose|j: int| 0 <= j < s1.len() && #[trigger] s1[j] as int == b;
        lemma_ahead_total(keys, a, b, a);
        lemma_ahead_total(keys, b, a, b);
        if j < i {
            assert(s1[j] == s2[j]);
            assert(ahead(keys, s1[j] as int, s1[i] as int));
        }
        if j2 < i {
            assert(s1[j2] == s2[j2]);
            assert(ahead(keys, s2[j2] as int, s2[i] as int));
        }
        if a != b {
            assert(ahead(keys, s2[i] as int, s2[j] as int));
            assert(ahead(keys, s1[i] as int, s1[j2] as int));
        }
    }
}

/// Two listings of the same chosen positions are equal.
pub proof fn lemma_ranking_unique<K: Ranked>(keys: Seq<K>, ok: Seq<bool>, s1: Seq<usize>, s2: Seq<usize>)
    requires
        is_ranking(keys, ok, s1),
        is_ranking(keys, ok, s2),
    ensures
        s1 == s2,
{
    let m = if s1.len() <= s2.len() { s1.len() } else { s2.len() };
    lemma_ranking_prefix(keys, ok, s1, s2, m);
    if s1.len() < s2.len() {
        let a = s2[m as int] as int;
        assert(ok[a]);
        assert(listed(s1, a));
        let j = choose|j: int| 0 <= j < s1.len() && #[trigger] s1[j] as int == a;
        assert(s1[j] == s2[j]);
        assert(ahead(keys, s2[j] as int, s2[m as int] as int));
        lemma_ahead_total(keys, a, a, a);
    }
    if s2.len() < s1.len() {
        let a = s1[m as int] as int;
        assert(ok[a]);
        assert(listed(s2, a));
        let j = choose|j: int| 0 <= j < s2.len() && #[trigger] s2[j] as int == a;
        assert(s1[j] == s2[j]);
        assert(ahead(keys, s1[j] as int, s1[m as int] as int));
        lemma_ahead_total(keys, a, a, a);
    }
    assert(s1 =~= s2);
}

/// The positions of `s` are in ascending order.
pub open spec fn ascending<K: Ranked>(keys: Seq<K>, s: Seq<usize>) -> bool {
    forall|a: int, b: int| 0 <= a < b < s.len() ==> ahead(keys, #[trigger] s[a] as int, #[trigger] s[b] as int)
}

/// The ascending listing `s` with position `x` put in its place.
pub open spec fn inserted<K: Ranked>(keys: Seq<K>, s: Seq<usize>, x: usize) -> Seq<usize>
    decreases s.len(),
{
    if s.len() == 0 || ahead(keys, s.last() as int, x as int) {
        s.push(x)
    } else {
        inserted(keys, s.drop_last(), x).push(s.last())
    }
}

proof fn lemma_inserted<K: Ranked>(keys: Seq<K>, s: Seq<usize>, x: usize)
    requires
        ascending(keys, s),
        forall|k: int| 0 <= k < s.len() ==> #[trigger] s[k] != x,
    ensures
        ascending(keys, inserted(keys, s, x)),
        inserted(keys, s, x).len() == s.len() + 1,
        forall|k: int|
            0 <= k < s.len() + 1 ==> (#[trigger] inserted(keys, s, x)[k]) == x || listed(
                s,
                inserted(keys, s, x)[k] as int,
            ),
        listed(inserted(keys, s, x), x as int),
        forall|j: int| listed(s, j) ==> listed(inserted(keys, s, x), j),
    decreases s.len(),
{
    let r = inserted(keys, s, x);
    if s.len() == 0 || ahead(keys, s.last() as int, x as int) {
        assert(r[s.len() as int] == x);
        assert forall|a: int, b: int| 0 <= a < b < r.len() implies ahead(
            keys,
            #[trigger] r[a] as int,
            #[trigger] r[b] as int,
        ) by {
            if b == s.len() {
                assert(r[a] == s[a]);
                if a < s.len() - 1 {
                    assert(ahead(keys, s[a] as int, s[s.len() - 1] as int));
                    lemma_ahead_total(keys, s[a] as int, s.last() as int, x as int);
                }
            } else {
                assert(r[a] == s[a] && r[b] == s[b]);
            }
        }
        assert forall|k: int| 0 <= k < s.len() + 1 implies (#[trigger] r[k]) == x || listed(s, r[k] as int) by {
            if k < s.len() {
                assert(s[k] as int == r[k] as int);
            }
        }
        assert forall|j: int| listed(s, j) implies listed(r, j) by {
            let k = choose|k: int| 0 <= k < s.len() && #[trigger] s[k] as int == j;
            assert(r[k] as int == j);
        }
    } else {
        let front = s.drop_last();
        let last = s.last();
        assert forall|a: int, b: int| 0 <= a < b < front.len() implies ahead(
            keys,
            #[trigger] front[a] as int,
            #[trigger] front[b] as int,
        ) by {
            assert(front[a] == s[a] && front[b] == s[b]);
        }
        assert forall|k: int| 0 <= k < front.len() implies #[trigger] front[k] != x by {
            assert(front[k] == s[k]);
        }
        lemma_inserted(keys, front, x);
        let mid = inserted(keys, front, x);
        assert(last == s[s.len() - 1]);
        lemma_ahead_total(keys, last as int, x as int, last as int);
        assert forall|a: int, b: int| 0 <= a < b < r.len() implies ahead(
            keys,
            #[trigger] r[a] as int,
            #[trigger] r[b] as int,
        ) by {
            if b == r.len() - 1 {
                assert(r[a] == mid[a]);
                if mid[a] != x {
                    assert(listed(front, mid[a] as int));
                    let k = choose|k: int| 0 <= k < front.len() && #[trigger] front[k] as int == mid[a] as int;
                    assert(front[k] == s[k]);
                    assert(ahead(keys, s[k] as int, s[s.len() - 1] as int));
                }
            } else {
                assert(r[a] == mid[a] && r[b] == mid[b]);
            }
        }
        assert forall|k: int| 0 <= k < s.len() + 1 implies (#[trigger] r[k]) == x || listed(s, r[k] as int) by {
            if k < mid.len() {
                assert(r[k] == mid[k]);
                if mid[k] != x {
                    let a = choose|a: int| 0 <= a < front.len() && #[trigger] front[a] as int == mid[k] as int;
                    assert(s[a] as int == mid[k] as int);
                }
            } else {
                assert(s[s.len() - 1] as int == r[k] as int);
            }
        }
        let kx = choose|k: int| 0 <= k < mid.len() && #[trigger] mid[k] as int == x as int;
        assert(r[kx] as int == x as int);
        assert forall|j: int| listed(s, j) implies listed(r, j) by {
            let k = choose|k: int| 0 <= k < s.len() && #[trigger] s[k] as int == j;
            if k < front.len() {
                assert(front[k] as int == j);
                assert(listed(front, j));
                let m = choose|m: int| 0 <= m < mid.len() && #[trigger] mid[m] as int == j;
                assert(r[m] as int == j);
            } else {
                assert(r[r.len() - 1] as int == j);
            }
        }
    }
}

/// `s` lists the chosen positions below `m`, and has as many positions as there are.
pub open spec fn sized_ranking<K: Ranked>(keys: Seq<K>, ok: Seq<bool>, m: int, s: Seq<usize>) -> bool {
    is_ranking(keys, chosen_below(ok, m), s) && s.len() == count_beyond(keys, ok, None, m)
}

/// The chosen positions below `m`.
pub open spec fn chosen_below(ok: Seq<bool>, m: int) -> Seq<bool> {
    Seq::new(ok.len(), |j: int| j < m && ok[j])
}

proof fn lemma_ranking_exists_below<K: Ranked>(keys: Seq<K>, ok: Seq<bool>, m: int)
    requires
        ok.len() == keys.len(),
        0 <= m <= keys.len(),
        keys.len() <= usize::MAX,
    ensures
        exists|s: Seq<usize>| sized_ranking(keys, ok, m, s),
    decreases m,
{
    if m == 0 {
        assert(is_ranking(keys, chosen_below(ok, 0), Seq::<usize>::empty()));
        assert(sized_ranking(keys, ok, 0, Seq::<usize>::empty()));
    } else {
        lemma_ranking_exists_below(keys, ok, m - 1);
        let less = m - 1;
        let s = choose|s: Seq<usize>| sized_ranking(keys, ok, less, s);
        if !ok[m - 1] {
            assert(chosen_below(ok, m) =~= chosen_below(ok, m - 1));
            assert(sized_ranking(keys, ok, m, s));
        } else {
            let x = (m - 1) as usize;
            assert forall|k: int| 0 <= k < s.len() implies #[trigger] s[k] != x by {
                assert(chosen_below(ok, m - 1)[s[k] as int]);
            }
            lemma_inserted(keys, s, x);
            let r = inserted(keys, s, x);
            assert forall|k: int| 0 <= k < r.len() implies (#[trigger] r[k] as int) < keys.len()
                && chosen_below(ok, m)[r[k] as int] by {
                if r[k] != x {
                    let a = choose|a: int| 0 <= a < s.len() && #[trigger] s[a] as int == r[k] as int;
                    assert(chosen_below(ok, m - 1)[s[a] as int]);
                }
            }
            assert forall|j: int| 0 <= j < keys.len() && #[trigger] chosen_below(ok, m)[j] implies listed(
                r,
                j,
            ) by {
                if j != x as int {
                    assert(chosen_below(ok, m - 1)[j]);
                    assert(listed(s, j));
                }
            }
            assert(is_ranking(keys, chosen_below(ok, m), r));
            assert(sized_ranking(keys, ok, m, r));
        }
    }
}

/// Every table has a listing of its chosen positions, as long as they are many.
pub proof fn lemma_ranking_exists<K: Ranked>(keys: Seq<K>, ok: Seq<bool>)
    requires
        ok.len() == keys.len(),
        keys.len() <= usize::MAX,
    ensures
        is_ranking(keys, ok, ranking_of(keys, ok)),
        ranking_of(keys, ok).len() == count_beyond(keys, ok, None, keys.len() as int),
{
    let n = keys.len() as int;
    lemma_ranking_exists_below(keys, ok, n);
    assert(chosen_below(ok, n) =~= ok);
    let s = choose|s: Seq<usize>| sized_ranking(keys, ok, n, s);
    lemma_ranking_unique(keys, ok, s, ranking_of(keys, ok));
}

/// The ascending listing of the chosen positions.
pub open spec fn ranking_of<K: Ranked>(keys: Seq<K>, ok: Seq<bool>) -> Seq<usize> {
    choose|s: Seq<usize>| is_ranking(keys, ok, s)
}

/// Lists the chosen positions in ascending order.
pub fn rank_all<K: Ranked>(keys: &Vec<K>, ok: &Vec<bool>) -> (r: Vec<usize>)
    requires
        ok.len() == keys.len(),
    ensures
        is_ranking(keys@, ok@, r@),
        r@ == ranking_of(keys@, ok@),
        r@.len() == count_beyond(keys@, ok@, None, keys@.len() as int),
{
    let n = keys.len();
    let mut out: Vec<usize> = Vec::new();
    let mut floor: Option<usize> = None;
    let mut next = least_beyond(keys, ok, None);
    while next.is_some()
        invariant
            n == keys.len(),
            ok.len() == keys.len(),
            floor matches Some(f) ==> f < n && out.len() > 0 && out@.last() == f,
            floor is None ==> out.len() == 0,
            is_least_beyond(keys@, ok@, index_view(floor), index_view(next)),
            out.len() + count_beyond(keys@, ok@, index_view(floor), n as int) == count_beyond(
                keys@,
                ok@,
                None,
                n as int,
            ),
            forall|k: int| 0 <= k < out.len() ==> (#[trigger] out@[k] as int) < n && ok@[out@[k] as int],
            forall|a: int, b: int|
                0 <= a < b < out.len() ==> ahead(keys@, #[trigger] out@[a] as int, #[trigger] out@[b] as int),
            forall|j: int|
                0 <= j < n && #[trigger] ok@[j] && !beyond(keys@, index_view(floor), j) ==> listed(out@, j),
        decreases count_beyond(keys@, ok@, index_view(floor), n as int),
    {
        let i = next.unwrap();
        let ghost before = out@;
        let ghost fl = index_view(floor);
        proof {
            lemma_count_exact(keys@, ok@, fl, i as int, n as int);
            assert(eligible_at(keys@, ok@, fl, i as int));
        }
        out.push(i);
        proof {
            assert forall|a: int, b: int| 0 <= a < b < out.len() implies ahead(
                keys@,
                #[trigger] out@[a] as int,
                #[trigger] out@[b] as int,
            ) by {
                if b == out.len() - 1 {
                    let f = floor->0;
                    assert(before.last() == f);
                    if a < before.len() - 1 {
                        assert(ahead(keys@, before[a] as int, before[before.len() - 1] as int));
                    }
                    lemma_ahead_total(keys@, out@[a] as int, f as int, i as int);
                } else {
                    assert(out@[a] == before[a] && out@[b] == before[b]);
                }
            }
            assert forall|j: int|
                0 <= j < n && #[trigger] ok@[j] && !beyond(keys@, Some(i as int), j) implies listed(
                out@,
                j,
            ) by {
                if j == i {
                    assert(out@[out.len() - 1] as int == j);
                } else {
                    lemma_ahead_total(keys@, i as int, j, i as int);
                    if eligible_at(keys@, ok@, fl, j) {
                        assert(ahead(keys@, i as int, j));
                    }
                    assert(!beyond(keys@, fl, j));
                    assert(listed(before, j));
                    let k = choose|k: int| 0 <= k < before.len() && #[trigger] before[k] as int == j;
                    assert(out@[k] as int == j);
                }
            }
        }
        floor = Some(i);
        next = least_beyond(keys, ok, floor);
    }
    proof {
        assert forall|j: int| 0 <= j < n && #[trigger] ok@[j] implies listed(out@, j) by {
            assert(!eligible_at(keys@, ok@, index_view(floor), j));
        }
        assert(is_ranking(keys@, ok@, out@));
        lemma_count_none(keys@, ok@, index_view(floor), n as int);
        lemma_ranking_unique(keys@, ok@, out@, ranking_of(keys@, ok@));
    }
    out
}

} // verus!
