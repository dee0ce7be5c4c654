//! Stable ordering by descending score: the order that a stable sort with
//! the comparison `b.cmp(a)` leaves a sequence in.
use vstd::prelude::*;

verus! {

/// Whether index `a` comes before index `b`: a higher key first, and among
/// equal keys the lower index first.
pub open spec fn precedes(keys: Seq<i32>, a: int, b: int) -> bool {
    keys[a] > keys[b] || (keys[a] == keys[b] && a < b)
}

/// Whether `p` lists each of the indices `0..n` once, ordered by `precedes`.
pub open spec fn is_order_upto(keys: Seq<i32>, p: Seq<int>, n: int) -> bool {
    &&& p.len() == n
    &&& forall|j: int| 0 <= j < p.len() ==> 0 <= #[trigger] p[j] < n
    &&& forall|i: int| 0 <= i < n ==> #[trigger] p.contains(i)
    &&& forall|a: int, b: int| 0 <= a < b < p.len() ==> precedes(keys, #[trigger] p[a], #[trigger] p[b])
}

/// The position at which index `i` is inserted into the order `p`: after
/// every index whose key is at least that of `i`.
pub open spec fn insert_pos(keys: Seq<i32>, p: Seq<int>, i: int) -> int
    decreases p.len(),
{
    if p.len() == 0 {
        0
    } else if keys[p.last()] >= keys[i] {
        p.len() as int
    } else {
        insert_pos(keys, p.drop_last(), i)
    }
}

/// The stable descending order of the indices `0..n`, built by inserting
/// each index in turn.
pub open spec fn desc_order(keys: Seq<i32>, n: nat) -> Seq<int>
    decreases n,
{
    if n == 0 {
        seq![]
    } else {
        let p = desc_order(keys, (n - 1) as nat);
        p.insert(insert_pos(keys, p, n - 1), n - 1)
    }
}

/// Along an order, the keys do not increase; from the last position whose
/// key is at least `keys[n]` on, every key is lower.
proof fn lemma_insert_pos_sorted(keys: Seq<i32>, p: Seq<int>, n: int)
    requires
        0 <= n < keys.len(),
        forall|j: int| 0 <= j < p.len() ==> 0 <= #[trigger] p[j] < n,
        forall|a: int, b: int| 0 <= a < b < p.len() ==> precedes(keys, #[trigger] p[a], #[trigger] p[b]),
    ensures
        0 <= insert_pos(keys, p, n) <= p.len(),
        forall|y: int| 0 <= y < insert_pos(keys, p, n) ==> keys[#[trigger] p[y]] >= keys[n],
        forall|y: int| insert_pos(keys, p, n) <= y < p.len() ==> keys[#[trigger] p[y]] < keys[n],
    decreases p.len(),
{
    if p.len() == 0 {
    } else if keys[p.last()] >= keys[n] {
        assert forall|y: int| 0 <= y < p.len() implies keys[#[trigger] p[y]] >= keys[n] by {
            if y < p.len() - 1 {
                assert(precedes(keys, p[y], p[p.len() - 1]));
            }
        }
    } else {
        let q = p.drop_last();
        assert forall|a: int, b: int| 0 <= a < b < q.len() implies precedes(
            keys,
            #[trigger] q[a],
            #[trigger] q[b],
        ) by {
            assert(q[a] == p[a] && q[b] == p[b]);
        }
        lemma_insert_pos_sorted(keys, q, n);
        let x = insert_pos(keys, q, n);
        assert forall|y: int| x <= y < p.len() implies keys[#[trigger] p[y]] < keys[n] by {
            if y < q.len() {
                assert(q[y] == p[y]);
            }
        }
        assert forall|y: int| 0 <= y < x implies keys[#[trigger] p[y]] >= keys[n] by {
            assert(q[y] == p[y]);
        }
    }
}

/// `desc_order` orders the indices `0..n`.
pub proof fn lemma_desc_order(keys: Seq<i32>, n: nat)
    requires
        n <= keys.len(),
    ensures
        is_order_upto(keys, desc_order(keys, n), n as int),
    decreases n,
{
    if n > 0 {
        let m = (n - 1) as int;
        lemma_desc_order(keys, (n - 1) as nat);
        let p = desc_order(keys, (n - 1) as nat);
        lemma_insert_pos_sorted(keys, p, m);
        let x = insert_pos(keys, p, m);
        let q = p.insert(x, m);
        assert(q == desc_order(keys, n));
        assert forall|j: int| 0 <= j < q.len() implies 0 <= #[trigger] q[j] < n by {
            if j < x {
                assert(q[j] == p[j]);
            } else if j > x {
                assert(q[j] == p[j - 1]);
            }
        }
        assert forall|i: int| 0 <= i < n implies #[trigger] q.contains(i) by {
            if i == m {
                assert(q[x] == m);
            } else {
                assert(p.contains(i));
                let j = choose|j: int| 0 <= j < p.len() && p[j] == i;
                if j < x {
                    assert(q[j] == i);
                } else {
                    assert(q[j + 1] == i);
                }
            }
        }
        assert forall|a: int, b: int| 0 <= a < b < q.len() implies precedes(
            keys,
            #[trigger] q[a],
            #[trigger] q[b],
        ) by {
            if b < x {
                assert(q[a] == p[a] && q[b] == p[b]);
            } else if b == x {
                assert(q[a] == p[a]);
                assert(keys[p[a]] >= keys[m]);
            } else if a > x {
                assert(q[a] == p[a - 1] && q[b] == p[b - 1]);
            } else if a == x {
                assert(q[b] == p[b - 1]);
                assert(keys[p[b - 1]] < keys[m]);
            } else {
                assert(q[a] == p[a] && q[b] == p[b - 1]);
            }
        }
    }
}

proof fn lemma_orders_agree(keys: Seq<i32>, p: Seq<int>, q: Seq<int>, n: int, j: int)
    requires
        is_order_upto(keys, p, n),
        is_order_upto(keys, q, n),
        0 <= j <= n,
    ensures
        forall|m: int| 0 <= m < j ==> p[m] == q[m],
    decreases j,
{
    if j > 0 {
        lemma_orders_agree(keys, p, q, n, j - 1);
        let m = j - 1;
        if p[m] != q[m] {
            assert(p.contains(q[m]));
            let a = choose|a: int| 0 <= a < p.len() && p[a] == q[m];
            assert(q.contains(p[m]));
            let b = choose|b: int| 0 <= b < q.len() && q[b] == p[m];
            if a < m {
                assert(precedes(keys, q[a], q[m]));
            }
            if b < m {
                assert(precedes(keys, p[b], p[m]));
            }
            assert(precedes(keys, p[m], p[a]));
            assert(precedes(keys, q[m], q[b]));
        }
    }
}

/// There is only one order of the indices `0..n`.
pub proof fn lemma_order_unique(keys: Seq<i32>, p: Seq<int>, q: Seq<int>, n: int)
    requires
        is_order_upto(keys, p, n),
        is_order_upto(keys, q, n),
    ensures
        p == q,
{
    lemma_orders_agree(keys, p, q, n, n);
    assert(p =~= q);
}

/// Whether `p` lists each of the indices `lo..hi` once, ordered by `precedes`.
pub open spec fn sorted_run(keys: Seq<i32>, p: Seq<usize>, lo: int, hi: int) -> bool {
    &&& p.len() == hi - lo
    &&& forall|j: int| 0 <= j < p.len() ==> lo <= #[trigger] p[j] < hi
    &&& forall|i: int| lo <= i < hi ==> #[trigger] p.contains(i as usize)
    &&& forall|a: int, b: int| 0 <= a < b < p.len() ==> precedes(keys, #[trigger] p[a] as int, #[trigger] p[b] as int)
}

/// Merges two adjacent sorted runs, `lo..mid` and `mid..hi`, into one.
fn merge_runs(
    keys: &Vec<i32>,
    a: &Vec<usize>,
    b: &Vec<usize>,
    Ghost(lo): Ghost<int>,
    Ghost(mid): Ghost<int>,
    Ghost(hi): Ghost<int>,
) -> (out: Vec<usize>)
    requires
        0 <= lo <= mid <= hi <= keys@.len(),
        sorted_run(keys@, a@, lo, mid),
        sorted_run(keys@, b@, mid, hi),
    ensures
        sorted_run(keys@, out@, lo, hi),
{
    let ghost k = keys@;
    let mut out: Vec<usize> = Vec::new();
    let mut i: usize = 0;
    let mut j: usize = 0;
    while i < a.len() || j < b.len()
        invariant
            sorted_run(k, a@, lo, mid),
            sorted_run(k, b@, mid, hi),
            0 <= lo <= mid <= hi <= k.len(),
            k == keys@,
            i <= a@.len(),
            j <= b@.len(),
            out@.len() == i + j,
            forall|x: int| 0 <= x < out@.len() ==> lo <= #[trigger] out@[x] < hi,
            forall|x: int| 0 <= x < i ==> out@.contains(#[trigger] a@[x]),
            forall|x: int| 0 <= x < j ==> out@.contains(#[trigger] b@[x]),
            forall|x: int, y: int|
                0 <= x < y < out@.len() ==> precedes(k, #[trigger] out@[x] as int, #[trigger] out@[y] as int),
            forall|x: int, m: int|
                0 <= x < out@.len() && i <= m < a@.len() ==> precedes(
                    k,
                    #[trigger] out@[x] as int,
                    #[trigger] a@[m] as int,
                ),
            forall|x: int, m: int|
                0 <= x < out@.len() && j <= m < b@.len() ==> precedes(
                    k,
                    #[trigger] out@[x] as int,
                    #[trigger] b@[m] as int,
                ),
        decreases a@.len() - i + b@.len() - j,
    {
        let ghost before = out@;
        let take_a = j >= b.len() || (i < a.len() && keys[a[i]] >= keys[b[j]]);
        if take_a {
            let x = a[i];
            assert(j < b@.len() ==> precedes(k, x as int, b@[j as int] as int));
            out.push(x);
            assert forall|m: int| 0 <= m < i + 1 implies out@.contains(#[trigger] a@[m]) by {
                if m < i {
                    assert(before.contains(a@[m]));
                    let w = choose|w: int| 0 <= w < before.len() && before[w] == a@[m];
                    assert(out@[w] == a@[m]);
                } else {
                    assert(out@[before.len() as int] == a@[m]);
                }
            }
            assert forall|m: int| 0 <= m < j implies out@.contains(#[trigger] b@[m]) by {
                assert(before.contains(b@[m]));
                let w = choose|w: int| 0 <= w < before.len() && before[w] == b@[m];
                assert(out@[w] == b@[m]);
            }
            assert forall|y: int, m: int| 0 <= y < out@.len() && j <= m < b@.len() implies precedes(
                k,
                #[trigger] out@[y] as int,
                #[trigger] b@[m] as int,
            ) by {
                if y < before.len() {
                    assert(out@[y] == before[y]);
                } else if m > j {
                    assert(precedes(k, b@[j as int] as int, b@[m] as int));
                }
            }
            i = i + 1;
        } else {
            let x = b[j];
            assert(i < a@.len() ==> precedes(k, x as int, a@[i as int] as int));
            out.push(x);
            assert forall|m: int| 0 <= m < j + 1 implies out@.contains(#[trigger] b@[m]) by {
                if m < j {
                    assert(before.contains(b@[m]));
                    let w = choose|w: int| 0 <= w < before.len() && before[w] == b@[m];
                    assert(out@[w] == b@[m]);
                } else {
                    assert(out@[before.len() as int] == b@[m]);
                }
            }
            assert forall|m: int| 0 <= m < i implies out@.contains(#[trigger] a@[m]) by {
                assert(before.contains(a@[m]));
                let w = choose|w: int| 0 <= w < before.len() && before[w] == a@[m];
                assert(out@[w] == a@[m]);
            }
            assert forall|y: int, m: int| 0 <= y < out@.len() && i <= m < a@.len() implies precedes(
                k,
                #[trigger] out@[y] as int,
                #[trigger] a@[m] as int,
            ) by {
                if y < before.len() {
                    assert(out@[y] == before[y]);
                } else if m > i {
                    assert(precedes(k, a@[i as int] as int, a@[m] as int));
                }
            }
            j = j + 1;
        }
    }
    assert forall|x: int| lo <= x < hi implies #[trigger] out@.contains(x as usize) by {
        if x < mid {
            assert(a@.contains(x as usize));
            let w = choose|w: int| 0 <= w < a@.len() && a@[w] == x as usize;
            assert(out@.contains(a@[w]));
        } else {
            assert(b@.contains(x as usize));
            let w = choose|w: int| 0 <= w < b@.len() && b@[w] == x as usize;
            assert(out@.contains(b@[w]));
        }
    }
    out
}

/// The indices `lo..hi` sorted by `precedes`, by merge sort.
fn sort_run(keys: &Vec<i32>, lo: usize, hi: usize) -> (p: Vec<usize>)
    requires
        lo <= hi <= keys@.len(),
    ensures
        sorted_run(keys@, p@, lo as int, hi as int),
    decreases hi - lo,
{
    if hi - lo <= 1 {
        let mut p: Vec<usize> = Vec::new();
        if hi > lo {
            p.push(lo);
            assert(p@[0] == lo);
            assert(p@.contains(lo));
        }
        p
    } else {
        let mid = lo + (hi - lo) / 2;
        let a = sort_run(keys, lo, mid);
        let b = sort_run(keys, mid, hi);
        merge_runs(keys, &a, &b, Ghost(lo as int), Ghost(mid as int), Ghost(hi as int))
    }
}

/// The indices of `keys` in stable descending order of their keys.
pub fn stable_desc_order(keys: &Vec<i32>) -> (p: Vec<usize>)
    ensures
        p@.map_values(|x: usize| x as int) == desc_order(keys@, keys@.len()),
{
    let p = sort_run(keys, 0, keys.len());
    proof {
        let n = keys@.len() as int;
        let q = p@.map_values(|x: usize| x as int);
        assert forall|i: int| 0 <= i < n implies #[trigger] q.contains(i) by {
            assert(p@.contains(i as usize));
            let w = choose|w: int| 0 <= w < p@.len() && p@[w] == i as usize;
            assert(q[w] == i);
        }
        assert forall|a: int, b: int| 0 <= a < b < q.len() implies precedes(keys@, #[trigger] q[a], #[trigger] q[b]) by {
            assert(precedes(keys@, p@[a] as int, p@[b] as int));
        }
        assert(is_order_upto(keys@, q, n));
        lemma_desc_order(keys@, keys@.len());
        lemma_order_unique(keys@, q, desc_order(keys@, keys@.len()), n);
    }
    p
}

} // verus!
