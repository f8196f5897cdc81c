//! Stable descending orders of competitors by score totals.
use vstd::prelude::*;

verus! {

/// The keys of an executable score vector, as mathematical integers.
pub open spec fn widen(v: Seq<i64>) -> Seq<int> {
    v.map_values(|k: i64| k as int)
}

/// Position `a` places ahead of position `b`: a higher key first, and on equal
/// keys the earlier position first.
pub open spec fn ahead(keys: Seq<int>, a: int, b: int) -> bool {
    keys[a] > keys[b] || (keys[a] == keys[b] && a < b)
}

/// `o` lists every position of `keys` once, best first, ties kept in input order.
pub open spec fn is_stable_desc(keys: Seq<int>, o: Seq<usize>) -> bool {
    &&& o.len() == keys.len()
    &&& forall|q: int| 0 <= q < o.len() ==> (#[trigger] o[q] as int) < keys.len()
    &&& forall|x: usize| (x as int) < keys.len() ==> #[trigger] o.contains(x)
    &&& forall|a: int, b: int|
        0 <= a < b < o.len() ==> ahead(keys, #[trigger] o[a] as int, #[trigger] o[b] as int)
}

/// The stable descending order of the positions of `keys`.
pub open spec fn rank_order(keys: Seq<int>) -> Seq<usize> {
    choose|o: Seq<usize>| is_stable_desc(keys, o)
}

proof fn lemma_prefix_agrees(keys: Seq<int>, o1: Seq<usize>, o2: Seq<usize>, k: int)
    requires
        is_stable_desc(keys, o1),
        is_stable_desc(keys, o2),
        0 <= k <= o1.len(),
    ensures
        forall|q: int| 0 <= q < k ==> o1[q] == o2[q],
    decreases k,
{
    if k > 0 {
        lemma_prefix_agrees(keys, o1, o2, k - 1);
        let x = o1[k - 1];
        let y = o2[k - 1];
        if x != y {
            assert(o1.contains(y));
            assert(o2.contains(x));
            let j = choose|q: int| 0 <= q < o1.len() && o1[q] == y;
            let j2 = choose|q: int| 0 <= q < o2.len() && o2[q] == x;
            if j < k - 1 {
                assert(ahead(keys, o2[j] as int, o2[k - 1] as int));
            }
            if j2 < k - 1 {
                assert(ahead(keys, o1[j2] as int, o1[k - 1] as int));
            }
            assert(ahead(keys, o1[k - 1] as int, o1[j] as int));
            assert(ahead(keys, o2[k - 1] as int, o2[j2] as int));
        }
    }
}

/// Two stable descending orders of the same keys are the same order: ties
/// always resolve the same way for a fixed input order.
pub proof fn lemma_stable_desc_unique(keys: Seq<int>, o1: Seq<usize>, o2: Seq<usize>)
    requires
        is_stable_desc(keys, o1),
        is_stable_desc(keys, o2),
    ensures
        o1 == o2,
{
    lemma_prefix_agrees(keys, o1, o2, o1.len() as int);
    assert(o1 =~= o2);
}

/// The positions of `keys`, best first: higher keys lead, equal keys keep
/// their input order (a stable sort, descending).
pub fn rank_desc(keys: &Vec<i64>) -> (r: Vec<usize>)
    ensures
        is_stable_desc(widen(keys@), r@),
        r@ == rank_order(widen(keys@)),
{
    let ghost ks = widen(keys@);
    let n = keys.len();
    let mut out: Vec<usize> = Vec::new();
    let mut i: usize = 0;
    while i < n
        invariant
            ks == widen(keys@),
            n == keys.len(),
            i <= n,
            sorted_prefix(ks, out@, i as int),
        decreases n - i,
    {
        let k = keys[i];
        let mut p: usize = 0;
        while p < out.len() && !(k > keys[out[p]])
            invariant
                ks == widen(keys@),
                n == keys.len(),
                i < n,
                k == keys@[i as int],
                sorted_prefix(ks, out@, i as int),
                p <= out.len(),
                forall|a: int| 0 <= a < p ==> ahead(ks, #[trigger] out@[a] as int, i as int),
            decreases out.len() - p,
        {
            p = p + 1;
        }
        let ghost old_out = out@;
        out.insert(p, i);
        proof {
            lemma_insert_step(ks, old_out, i as int, p as int);
            assert(out@ == old_out.insert(p as int, i));
        }
        i = i + 1;
    }
    proof {
        assert(is_stable_desc(ks, out@));
        lemma_stable_desc_unique(ks, out@, rank_order(ks));
    }
    out
}

/// `o` lists positions `0..i` once each, best first.
pub open spec fn sorted_prefix(keys: Seq<int>, o: Seq<usize>, i: int) -> bool {
    &&& o.len() == i
    &&& forall|q: int| 0 <= q < o.len() ==> (#[trigger] o[q] as int) < i
    &&& forall|x: usize| (x as int) < i ==> #[trigger] o.contains(x)
    &&& forall|a: int, b: int|
        0 <= a < b < o.len() ==> ahead(keys, #[trigger] o[a] as int, #[trigger] o[b] as int)
}

proof fn find_slot(keys: Seq<int>, o: Seq<usize>, i: int, p: int) -> (r: int)
    requires
        0 <= i < keys.len(),
        sorted_prefix(keys, o, i),
        0 <= p <= o.len(),
        forall|a: int| 0 <= a < p ==> ahead(keys, #[trigger] o[a] as int, i),
    ensures
        p <= r <= o.len(),
        forall|a: int| 0 <= a < r ==> ahead(keys, #[trigger] o[a] as int, i),
        r < o.len() ==> ahead(keys, i, o[r] as int),
    decreases o.len() - p,
{
    if p == o.len() || keys[i] > keys[o[p] as int] {
        p
    } else {
        find_slot(keys, o, i, p + 1)
    }
}

/// Inserting position `i` where the keys place it keeps a sorted prefix
/// sorted, now of positions `0..i + 1`.
proof fn lemma_insert_step(keys: Seq<int>, o: Seq<usize>, i: int, p: int)
    requires
        0 <= i < keys.len(),
        i <= usize::MAX,
        sorted_prefix(keys, o, i),
        0 <= p <= o.len(),
        forall|a: int| 0 <= a < p ==> ahead(keys, #[trigger] o[a] as int, i),
        p < o.len() ==> ahead(keys, i, o[p] as int),
    ensures
        sorted_prefix(keys, o.insert(p, i as usize), i + 1),
{
    if p < o.len() {
        assert forall|b: int| p <= b < o.len() implies ahead(keys, i, #[trigger] o[b] as int) by {
            if b > p {
                assert(ahead(keys, o[p] as int, o[b] as int));
            }
        }
    }
    let nw = o.insert(p, i as usize);
    assert forall|x: usize| (x as int) < i + 1 implies #[trigger] nw.contains(x) by {
        if x as int == i {
            assert(nw[p] == x);
        } else {
            assert(o.contains(x));
            let q = choose|q: int| 0 <= q < o.len() && o[q] == x;
            if q < p {
                assert(nw[q] == x);
            } else {
                assert(nw[q + 1] == x);
            }
        }
    }
    assert forall|a: int, b: int| 0 <= a < b < nw.len() implies ahead(
        keys,
        #[trigger] nw[a] as int,
        #[trigger] nw[b] as int,
    ) by {
        if b < p {
        } else if b == p {
        } else if a < p {
            assert(ahead(keys, o[a] as int, i));
            assert(ahead(keys, i, o[b - 1] as int));
        } else if a == p {
        } else {
            assert(ahead(keys, o[a - 1] as int, o[b - 1] as int));
        }
    }
}

proof fn build_prefix(keys: Seq<int>, i: int) -> (o: Seq<usize>)
    requires
        0 <= i <= keys.len(),
        keys.len() <= usize::MAX,
    ensures
        sorted_prefix(keys, o, i),
    decreases i,
{
    if i == 0 {
        Seq::empty()
    } else {
        let j = i - 1;
        let prev = build_prefix(keys, j);
        let p = find_slot(keys, prev, j, 0);
        lemma_insert_step(keys, prev, j, p);
        prev.insert(p, j as usize)
    }
}

/// Every sequence of keys that positions can index has its stable
/// descending order.
pub proof fn lemma_rank_order_exists(keys: Seq<int>)
    requires
        keys.len() <= usize::MAX,
    ensures
        is_stable_desc(keys, rank_order(keys)),
{
    let o = build_prefix(keys, keys.len() as int);
    assert(is_stable_desc(keys, o));
}

/// `o` holds `n` distinct positions, each below `n`.
pub open spec fn is_perm(o: Seq<usize>, n: int) -> bool {
    &&& o.len() == n
    &&& forall|q: int| 0 <= q < n ==> (#[trigger] o[q] as int) < n
    &&& forall|a: int, b: int| 0 <= a < b < n ==> #[trigger] o[a] != #[trigger] o[b]
}

/// The final order of one tournament. Without a cut, all competitors by full
/// total. With a cut, the cut standings rank everyone by the total through the
/// cut round; the first `min(cut_line, n)` of them are re-ranked by full total
/// (ties kept in cut-standing order), and the rest follow in cut-standing order.
pub open spec fn final_order(full: Seq<int>, partial: Seq<int>, cut: bool, cut_line: int) -> Seq<usize> {
    if !cut {
        rank_order(full)
    } else {
        let c = rank_order(partial);
        let m = if cut_line < c.len() { cut_line } else { c.len() as int };
        let made = c.take(m);
        let r = rank_order(made.map_values(|x: usize| full[x as int]));
        r.map_values(|j: usize| made[j as int]) + c.skip(m)
    }
}

pub proof fn lemma_stable_desc_perm(keys: Seq<int>, o: Seq<usize>)
    requires
        is_stable_desc(keys, o),
    ensures
        is_perm(o, keys.len() as int),
{
    assert forall|a: int, b: int| 0 <= a < b < keys.len() implies #[trigger] o[a] != #[trigger] o[b] by {
        assert(ahead(keys, o[a] as int, o[b] as int));
    }
}

/// A final order lists every competitor exactly once.
pub proof fn lemma_final_order_perm(full: Seq<int>, partial: Seq<int>, cut: bool, cut_line: int)
    requires
        full.len() == partial.len(),
        full.len() <= usize::MAX,
        cut_line >= 0,
    ensures
        is_perm(final_order(full, partial, cut, cut_line), full.len() as int),
{
    if !cut {
        lemma_rank_order_exists(full);
        lemma_stable_desc_perm(full, rank_order(full));
    } else {
        let c = rank_order(partial);
        lemma_rank_order_exists(partial);
        lemma_stable_desc_perm(partial, c);
        let m = if cut_line < c.len() { cut_line } else { c.len() as int };
        let made = c.take(m);
        let made_keys = made.map_values(|x: usize| full[x as int]);
        let r = rank_order(made_keys);
        lemma_rank_order_exists(made_keys);
        lemma_stable_desc_perm(made_keys, r);
        lemma_compose_perm(c, r, m);
    }
}

/// With a cut, the first `min(cut_line, n)` of the cut standings fill the
/// first places (in some order) and the rest follow exactly in cut-standing
/// order, whatever their full totals.
pub proof fn lemma_cut_split(full: Seq<int>, partial: Seq<int>, cut_line: int)
    requires
        full.len() == partial.len(),
        full.len() <= usize::MAX,
        cut_line >= 0,
    ensures
        ({
            let o = final_order(full, partial, true, cut_line);
            let c = rank_order(partial);
            let m = if cut_line < full.len() { cut_line } else { full.len() as int };
            &&& o.len() == full.len()
            &&& o.skip(m) == c.skip(m)
            &&& forall|q: int| 0 <= q < m ==> c.take(m).contains(#[trigger] o[q])
            &&& forall|j: int| 0 <= j < m ==> o.take(m).contains(#[trigger] c[j])
        }),
{
    let o = final_order(full, partial, true, cut_line);
    let c = rank_order(partial);
    lemma_rank_order_exists(partial);
    let m = if cut_line < c.len() { cut_line } else { c.len() as int };
    let made = c.take(m);
    let made_keys = made.map_values(|x: usize| full[x as int]);
    let r = rank_order(made_keys);
    lemma_rank_order_exists(made_keys);
    let head = r.map_values(|j: usize| made[j as int]);
    assert(o == head + c.skip(m));
    assert(o.skip(m) =~= c.skip(m));
    assert forall|q: int| 0 <= q < m implies c.take(m).contains(#[trigger] o[q]) by {
        assert(o[q] == made[r[q] as int]);
    }
    assert forall|j: int| 0 <= j < m implies o.take(m).contains(#[trigger] c[j]) by {
        assert(r.contains(j as usize));
        let q = choose|q: int| 0 <= q < r.len() && r[q] == j as usize;
        assert(o.take(m)[q] == c[j]);
    }
}

/// Placing the first `m` entries of `c` in the order `r` and leaving the rest
/// where they are keeps a permutation.
proof fn lemma_compose_perm(c: Seq<usize>, r: Seq<usize>, m: int)
    requires
        is_perm(c, c.len() as int),
        is_perm(r, m),
        0 <= m <= c.len(),
    ensures
        is_perm(r.map_values(|j: usize| c.take(m)[j as int]) + c.skip(m), c.len() as int),
{
    let n = c.len() as int;
    let o = r.map_values(|j: usize| c.take(m)[j as int]) + c.skip(m);
    assert forall|a: int| 0 <= a < n implies #[trigger] o[a] == if a < m { c[r[a] as int] } else { c[a] } by {}
    assert forall|a: int, b: int| 0 <= a < b < n implies #[trigger] o[a] != #[trigger] o[b] by {
        let ia = if a < m { r[a] as int } else { a };
        let ib = if b < m { r[b] as int } else { b };
        if ia == ib {
            assert(r[a] != r[b]);
        }
        if ia < ib {
            assert(c[ia] != c[ib]);
        } else if ib < ia {
            assert(c[ib] != c[ia]);
        }
    }
    assert forall|a: int| 0 <= a < n implies (#[trigger] o[a] as int) < n by {
        if a < m {
            assert(o[a] == c[r[a] as int]);
        }
    }
}

fn gather_keys(full: &Vec<i64>, c: &Vec<usize>, m: usize) -> (v: Vec<i64>)
    requires
        m <= c.len(),
        forall|q: int| 0 <= q < c.len() ==> (#[trigger] c@[q] as int) < full.len(),
    ensures
        v.len() == m,
        forall|j: int| 0 <= j < m ==> #[trigger] v@[j] == full@[c@[j] as int],
{
    let mut v: Vec<i64> = Vec::new();
    let mut q: usize = 0;
    while q < m
        invariant
            m <= c.len(),
            forall|q: int| 0 <= q < c.len() ==> (#[trigger] c@[q] as int) < full.len(),
            q <= m,
            v.len() == q,
            forall|j: int| 0 <= j < q ==> #[trigger] v@[j] == full@[c@[j] as int],
        decreases m - q,
    {
        v.push(full[c[q]]);
        q = q + 1;
    }
    v
}

fn compose_order(c: &Vec<usize>, rm: &Vec<usize>, m: usize) -> (out: Vec<usize>)
    requires
        is_perm(c@, c.len() as int),
        is_perm(rm@, m as int),
        m <= c.len(),
    ensures
        out@ =~= rm@.map_values(|j: usize| c@.take(m as int)[j as int]) + c@.skip(m as int),
        is_perm(out@, c.len() as int),
{
    let n = c.len();
    let mut out: Vec<usize> = Vec::new();
    let mut q: usize = 0;
    while q < n
        invariant
            n == c.len(),
            m <= n,
            is_perm(c@, n as int),
            is_perm(rm@, m as int),
            q <= n,
            out.len() == q,
            forall|j: int| 0 <= j < q && j < m ==> #[trigger] out@[j] == c@[rm@[j] as int],
            forall|j: int| m <= j < q ==> #[trigger] out@[j] == c@[j],
        decreases n - q,
    {
        if q < m {
            out.push(c[rm[q]]);
        } else {
            out.push(c[q]);
        }
        q = q + 1;
    }
    proof {
        let expected = rm@.map_values(|j: usize| c@.take(m as int)[j as int]) + c@.skip(m as int);
        assert forall|j: int| 0 <= j < n implies #[trigger] out@[j] == expected[j] by {}
        assert(out@ =~= expected);
        lemma_compose_perm(c@, rm@, m as int);
    }
    out
}

/// Ranks one tournament: `full` holds each competitor's full total, `partial`
/// the total through the cut round. Returns competitor positions, winner first.
pub fn resolve(full: &Vec<i64>, partial: &Vec<i64>, cut: bool, cut_line: usize) -> (r: Vec<usize>)
    requires
        full.len() == partial.len(),
    ensures
        r@ == final_order(widen(full@), widen(partial@), cut, cut_line as int),
        is_perm(r@, full.len() as int),
{
    let n = full.len();
    if !cut {
        let o = rank_desc(full);
        proof {
            lemma_stable_desc_perm(widen(full@), o@);
        }
        return o;
    }
    let c = rank_desc(partial);
    proof {
        lemma_stable_desc_perm(widen(partial@), c@);
    }
    let m = if cut_line < n { cut_line } else { n };
    let made_keys = gather_keys(full, &c, m);
    let rm = rank_desc(&made_keys);
    proof {
        lemma_stable_desc_perm(widen(made_keys@), rm@);
        assert(widen(made_keys@) =~= c@.take(m as int).map_values(|x: usize| widen(full@)[x as int]));
    }
    compose_order(&c, &rm, m)
}

} // verus!
