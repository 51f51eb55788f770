use vstd::prelude::*;
use crate::world::{Entity, extract, lemma_extract_add};

verus! {

/// The number of groups of at most `g` items that `n` items make: `ceil(n / g)`.
pub open spec fn group_count(n: int, g: int) -> int {
    (n + g - 1) / g
}

/// The `k`-th contiguous group of at most `g` entities of `es`.
pub open spec fn group(es: Seq<Entity>, g: int, k: int) -> Seq<Entity> {
    es.subrange(k * g, if (k + 1) * g < es.len() { (k + 1) * g } else { es.len() as int })
}

/// The groups of `es`, in order.
pub open spec fn groups(es: Seq<Entity>, g: int) -> Seq<Seq<Entity>> {
    Seq::new(group_count(es.len() as int, g) as nat, |k: int| group(es, g, k))
}

/// The bundle of each group: the components of `table` that its entities hold.
pub open spec fn bundles_of<C>(table: Map<Entity, C>, es: Seq<Entity>, g: int) -> Seq<Seq<C>> {
    groups(es, g).map_values(|grp: Seq<Entity>| extract(table, grp))
}

proof fn lemma_group_count(n: int, g: int, k: int)
    requires
        g > 0,
        k >= 0,
        n >= 0,
        (k - 1) * g < n <= k * g,
    ensures
        group_count(n, g) == k,
{
    let q = (n + g - 1) / g;
    let r = (n + g - 1) % g;
    assert(q * g + r == n + g - 1 && 0 <= r < g) by (nonlinear_arith)
        requires g > 0, n >= 0, q == (n + g - 1) / g, r == (n + g - 1) % g;
    assert(q == k) by (nonlinear_arith)
        requires q * g + r == n + g - 1, 0 <= r < g, (k - 1) * g < n <= k * g, g > 0;
}

proof fn lemma_group_bounds(n: int, g: int, k: int)
    requires
        g > 0,
        n >= 0,
        0 <= k <= group_count(n, g),
    ensures
        k < group_count(n, g) ==> k * g < n,
        k == group_count(n, g) ==> k * g >= n,
        (k + 1) * g == k * g + g,
{
    let q = (n + g - 1) / g;
    let r = (n + g - 1) % g;
    assert(q * g + r == n + g - 1 && 0 <= r < g) by (nonlinear_arith)
        requires g > 0, n >= 0, q == (n + g - 1) / g, r == (n + g - 1) % g;
    assert(k < q ==> k * g < n) by (nonlinear_arith)
        requires q * g + r == n + g - 1, 0 <= r < g, g > 0, k >= 0;
    assert(k == q ==> k * g >= n) by (nonlinear_arith)
        requires q * g + r == n + g - 1, 0 <= r < g, g > 0;
    assert((k + 1) * g == k * g + g) by (nonlinear_arith);
}

proof fn lemma_bundles_prefix<C>(table: Map<Entity, C>, es: Seq<Entity>, g: int, k: int)
    requires
        g > 0,
        0 <= k <= group_count(es.len() as int, g),
    ensures
        bundles_of(table, es, g).subrange(0, k).flatten() == extract(
            table,
            es.subrange(0, if k * g < es.len() { k * g } else { es.len() as int }),
        ),
    decreases k,
{
    let n = es.len() as int;
    let bs = bundles_of(table, es, g);
    if k == 0 {
        assert(bs.subrange(0, 0) =~= Seq::<Seq<C>>::empty());
        assert(es.subrange(0, 0) =~= Seq::<Entity>::empty());
    } else {
        lemma_bundles_prefix(table, es, g, k - 1);
        lemma_group_bounds(n, g, k - 1);
        let pre = es.subrange(0, (k - 1) * g);
        let grp = group(es, g, k - 1);
        assert(bs.subrange(0, k) =~= bs.subrange(0, k - 1).push(bs[k - 1]));
        bs.subrange(0, k - 1).lemma_flatten_push(bs[k - 1]);
        lemma_extract_add(table, pre, grp);
        assert(pre + grp =~= es.subrange(0, if k * g < n { k * g } else { n }));
    }
}

/// The bundles of a partitioned pass are `ceil(N / G)` in number, and taken
/// together in group order they are exactly what one extraction over all
/// the entities gives.
pub proof fn lemma_bundles_cover<C>(table: Map<Entity, C>, es: Seq<Entity>, g: int)
    requires
        g > 0,
    ensures
        bundles_of(table, es, g).len() == group_count(es.len() as int, g),
        bundles_of(table, es, g).flatten() == extract(table, es),
{
    let k = group_count(es.len() as int, g);
    assert(k >= 0) by (nonlinear_arith)
        requires g > 0, k == (es.len() + g - 1) / g;
    lemma_group_bounds(es.len() as int, g, k);
    lemma_bundles_prefix(table, es, g, k);
    assert(bundles_of(table, es, g).subrange(0, k) =~= bundles_of(table, es, g));
    assert(es.subrange(0, es.len() as int) =~= es);
}

/// Splits `es` into contiguous groups of `group_size` entities; the last
/// group may be smaller.
pub fn partition(es: &[Entity], group_size: usize) -> (r: Vec<Vec<Entity>>)
    requires
        group_size > 0,
    ensures
        r@.map_values(|v: Vec<Entity>| v@) == groups(es@, group_size as int),
{
    let n = es.len();
    let g = group_size;
    let mut r: Vec<Vec<Entity>> = Vec::new();
    let mut start: usize = 0;
    assert(r@.len() * g == 0) by (nonlinear_arith)
        requires r@.len() == 0;
    while start < n
        invariant
            n == es@.len(),
            g == group_size,
            g > 0,
            start <= n,
            start as int == r@.len() * g,
            r@.len() > 0 ==> start < n,
            forall|q: int| 0 <= q < r@.len() ==> (#[trigger] r@[q])@ == group(es@, g as int, q),
        decreases n - start,
    {
        let end: usize = if n - start > g { start + g } else { n };
        let mut grp: Vec<Entity> = Vec::new();
        let mut i: usize = start;
        while i < end
            invariant
                start <= i <= end,
                end <= n,
                n == es@.len(),
                grp@ == es@.subrange(start as int, i as int),
            decreases end - i,
        {
            grp.push(es[i]);
            assert(es@.subrange(start as int, i + 1) =~= es@.subrange(start as int, i as int).push(es@[i as int]));
            i = i + 1;
        }
        let ghost k = r@.len() as int;
        assert((k + 1) * g == k * g + g) by (nonlinear_arith);
        assert(grp@ == group(es@, g as int, k));
        r.push(grp);
        if end == n {
            proof {
                lemma_group_count(n as int, g as int, r@.len() as int);
                assert(r@.map_values(|v: Vec<Entity>| v@) =~= groups(es@, group_size as int));
            }
            return r;
        }
        start = end;
    }
    proof {
        lemma_group_count(n as int, g as int, r@.len() as int);
        assert(r@.map_values(|v: Vec<Entity>| v@) =~= groups(es@, group_size as int));
    }
    r
}

} // verus!
