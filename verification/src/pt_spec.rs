//! What a translation table means: the walk the MMU performs, read over the
//! frames of physical memory, and the facts about it that the mapping code
//! relies on.

use vstd::prelude::*;
use crate::virtual_memory::{lidx, pfx, is_valid, is_table_desc, table_entry, ADDR_MASK, lemma_pfx_step_pub, lemma_lidx_bound};

verus! {

/// The table that entry `i` of table `t` points to, if it is a table descriptor.
pub open spec fn next_table(m: Map<u64, Seq<u64>>, t: u64, i: u64) -> Option<u64> {
    let e = m[t][i as int];
    if is_valid(e) && is_table_desc(e) {
        Some(e & ADDR_MASK)
    } else {
        None
    }
}

/// The level-`l` table that a walk from `root` for `va` reaches, if any.
pub open spec fn table_loc(m: Map<u64, Seq<u64>>, root: u64, va: u64, l: int) -> Option<u64>
    decreases l,
{
    if l <= 0 {
        Some(root)
    } else {
        match table_loc(m, root, va, l - 1) {
            Some(t) => next_table(m, t, lidx(l - 1, va)),
            None => None,
        }
    }
}

/// The level-3 descriptor for `va`, if the walk gets that far.
pub open spec fn leaf(m: Map<u64, Seq<u64>>, root: u64, va: u64) -> Option<u64> {
    match table_loc(m, root, va, 3) {
        Some(t) => Some(m[t][lidx(3, va) as int]),
        None => None,
    }
}

/// The valid leaf descriptor that maps `va`, if any: what the table means.
pub open spec fn pte_view(m: Map<u64, Seq<u64>>, root: u64, va: u64) -> Option<u64> {
    match leaf(m, root, va) {
        Some(e) => if is_valid(e) { Some(e) } else { None },
        None => None,
    }
}

/// The walk for `va` meets a valid descriptor at level `l` that is not a table.
pub open spec fn blocked_at(m: Map<u64, Seq<u64>>, root: u64, va: u64, l: int) -> bool {
    match table_loc(m, root, va, l) {
        Some(t) => {
            let e = m[t][lidx(l, va) as int];
            is_valid(e) && !is_table_desc(e)
        },
        None => false,
    }
}

/// The walk for `va` stops at a block descriptor above level 3.
pub open spec fn blocked(m: Map<u64, Seq<u64>>, root: u64, va: u64) -> bool {
    blocked_at(m, root, va, 0) || blocked_at(m, root, va, 1) || blocked_at(m, root, va, 2)
}

/// Frame `f` is one of the tables of the tree rooted at `root`.
pub open spec fn reaches(m: Map<u64, Seq<u64>>, root: u64, f: u64) -> bool {
    exists|va: u64, l: int| 0 <= l <= 3 && #[trigger] table_loc(m, root, va, l) == Some(f)
}

/// The tables reachable from `root` are frames in `tables`, and they form a
/// tree: a table is reached at one level only, by one sequence of indices.
pub open spec fn pt_wf(m: Map<u64, Seq<u64>>, tables: Set<u64>, root: u64) -> bool {
    &&& forall|va: u64, l: int| 0 <= l <= 3 && (#[trigger] table_loc(m, root, va, l)) is Some
            ==> tables.contains(table_loc(m, root, va, l).unwrap())
    &&& forall|va1: u64, l1: int, va2: u64, l2: int|
            0 <= l1 <= 3 && 0 <= l2 <= 3 && (#[trigger] table_loc(m, root, va1, l1)) is Some
            && table_loc(m, root, va1, l1) == #[trigger] table_loc(m, root, va2, l2)
            ==> l1 == l2 && pfx(l1, va1) == pfx(l1, va2)
}

/// No table of the tree at `r1` is a table of the tree at `r2`.
pub open spec fn pt_disjoint(m: Map<u64, Seq<u64>>, r1: u64, r2: u64) -> bool {
    forall|va1: u64, l1: int, va2: u64, l2: int|
        0 <= l1 <= 3 && 0 <= l2 <= 3 && (#[trigger] table_loc(m, r1, va1, l1)) is Some
        ==> table_loc(m, r1, va1, l1) != #[trigger] table_loc(m, r2, va2, l2)
}

/// `m2` holds the same words as `m` in every table of the tree at `root`.
pub open spec fn agree_on_tree(m: Map<u64, Seq<u64>>, m2: Map<u64, Seq<u64>>, root: u64) -> bool {
    forall|va: u64, l: int| 0 <= l <= 3 && (#[trigger] table_loc(m, root, va, l)) is Some
        ==> m2[table_loc(m, root, va, l).unwrap()] == m[table_loc(m, root, va, l).unwrap()]
}

/// Walks that share their first `l` indices reach the same level-`l` table.
pub proof fn lemma_loc_pfx(m: Map<u64, Seq<u64>>, root: u64, a: u64, b: u64, l: int)
    requires
        0 <= l <= 4,
        pfx(l, a) == pfx(l, b),
    ensures
        l <= 3 ==> table_loc(m, root, a, l) == table_loc(m, root, b, l),
        l >= 1 ==> table_loc(m, root, a, l - 1) == table_loc(m, root, b, l - 1) && lidx(l - 1, a) == lidx(l - 1, b),
    decreases l,
{
    if l > 0 {
        lemma_pfx_step_pub(l - 1, a, b);
        lemma_loc_pfx(m, root, a, b, l - 1);
    }
}

/// Addresses in the same page have the same meaning and walk.
pub proof fn lemma_same_page(m: Map<u64, Seq<u64>>, root: u64, a: u64, b: u64)
    requires
        pfx(4, a) == pfx(4, b),
    ensures
        pte_view(m, root, a) == pte_view(m, root, b),
        blocked(m, root, a) == blocked(m, root, b),
        leaf(m, root, a) == leaf(m, root, b),
{
    lemma_pfx_step_pub(3, a, b);
    lemma_pfx_step_pub(2, a, b);
    lemma_pfx_step_pub(1, a, b);
    lemma_loc_pfx(m, root, a, b, 4);
    lemma_loc_pfx(m, root, a, b, 3);
    lemma_loc_pfx(m, root, a, b, 2);
    lemma_loc_pfx(m, root, a, b, 1);
}

/// Memory that agrees on the tables of a tree gives the same walks.
pub proof fn lemma_agree_loc(m: Map<u64, Seq<u64>>, m2: Map<u64, Seq<u64>>, root: u64, va: u64, l: int)
    requires
        agree_on_tree(m, m2, root),
        0 <= l <= 3,
    ensures
        table_loc(m2, root, va, l) == table_loc(m, root, va, l),
        table_loc(m, root, va, l) is Some ==> m2[table_loc(m, root, va, l).unwrap()] == m[table_loc(m, root, va, l).unwrap()],
    decreases l,
{
    if l > 0 {
        lemma_agree_loc(m, m2, root, va, l - 1);
    }
}

/// Memory that agrees on the tables of a tree has the same tree and the same
/// meaning.
pub proof fn lemma_agree(m: Map<u64, Seq<u64>>, m2: Map<u64, Seq<u64>>, root: u64, t1: Set<u64>, t2: Set<u64>)
    requires
        agree_on_tree(m, m2, root),
        pt_wf(m, t1, root),
        t1.subset_of(t2),
    ensures
        pt_wf(m2, t2, root),
        forall|va: u64, l: int| 0 <= l <= 3 ==> #[trigger] table_loc(m2, root, va, l) == table_loc(m, root, va, l),
        forall|va: u64| #[trigger] pte_view(m2, root, va) == pte_view(m, root, va),
        forall|va: u64| #[trigger] blocked(m2, root, va) == blocked(m, root, va),
        forall|f: u64| #[trigger] reaches(m2, root, f) == reaches(m, root, f),
{
    assert forall|va: u64, l: int| 0 <= l <= 3 implies #[trigger] table_loc(m2, root, va, l) == table_loc(m, root, va, l) by {
        lemma_agree_loc(m, m2, root, va, l);
    }
    assert forall|va: u64| #[trigger] pte_view(m2, root, va) == pte_view(m, root, va) by {
        lemma_agree_loc(m, m2, root, va, 3);
    }
    assert forall|va: u64| #[trigger] blocked(m2, root, va) == blocked(m, root, va) by {
        lemma_agree_loc(m, m2, root, va, 0);
        lemma_agree_loc(m, m2, root, va, 1);
        lemma_agree_loc(m, m2, root, va, 2);
    }
    assert forall|f: u64| #[trigger] reaches(m2, root, f) == reaches(m, root, f) by {
        if reaches(m, root, f) {
            let (va, l) = choose|va: u64, l: int| 0 <= l <= 3 && #[trigger] table_loc(m, root, va, l) == Some(f);
            assert(table_loc(m2, root, va, l) == table_loc(m, root, va, l));
        }
        if reaches(m2, root, f) {
            let (va, l) = choose|va: u64, l: int| 0 <= l <= 3 && #[trigger] table_loc(m2, root, va, l) == Some(f);
            assert(table_loc(m2, root, va, l) == table_loc(m, root, va, l));
        }
    }
}

/// Writing the level-3 descriptor for `va` changes what the page of `va`
/// maps to and nothing else.
pub proof fn lemma_leaf_write(
    m: Map<u64, Seq<u64>>,
    m2: Map<u64, Seq<u64>>,
    tables: Set<u64>,
    root: u64,
    va: u64,
    t: u64,
    w: u64,
)
    requires
        pt_wf(m, tables, root),
        table_loc(m, root, va, 3) == Some(t),
        m[t].len() == 512,
        m2[t] == m[t].update(lidx(3, va) as int, w),
        forall|x: u64| x != t ==> #[trigger] m2[x] == m[x],
    ensures
        pt_wf(m2, tables, root),
        forall|v: u64, l: int| 0 <= l <= 3 ==> #[trigger] table_loc(m2, root, v, l) == table_loc(m, root, v, l),
        forall|v: u64| #[trigger] pte_view(m2, root, v) == if pfx(4, v) == pfx(4, va) {
            if is_valid(w) { Some(w) } else { None }
        } else {
            pte_view(m, root, v)
        },
        forall|v: u64| #[trigger] blocked(m2, root, v) == blocked(m, root, v),
        forall|f: u64| #[trigger] reaches(m2, root, f) == reaches(m, root, f),
{
    // No walk reads `t` above level 3, so every walk is unchanged up to level 3.
    assert forall|v: u64, l: int| 0 <= l <= 3 implies #[trigger] table_loc(m2, root, v, l) == table_loc(m, root, v, l) by {
        lemma_leaf_write_loc(m, m2, tables, root, va, t, w, v, l);
    }
    lemma_lidx_bound(3, va);
    assert forall|v: u64| #[trigger] pte_view(m2, root, v) == if pfx(4, v) == pfx(4, va) {
            if is_valid(w) { Some(w) } else { None }
        } else {
            pte_view(m, root, v)
        } by {
        lemma_leaf_write_loc(m, m2, tables, root, va, t, w, v, 3);
        lemma_pfx_step_pub(3, v, va);
        if pfx(4, v) == pfx(4, va) {
            lemma_loc_pfx(m, root, v, va, 3);
            assert(leaf(m2, root, v) == Some(w));
        } else if table_loc(m, root, v, 3) == Some(t) {
            assert(pfx(3, v) == pfx(3, va));
            assert(lidx(3, v) != lidx(3, va));
            lemma_lidx_bound(3, v);
            assert(m2[t][lidx(3, v) as int] == m[t][lidx(3, v) as int]);
            assert(leaf(m2, root, v) == leaf(m, root, v));
        } else if table_loc(m, root, v, 3) is Some {
            let x = table_loc(m, root, v, 3).unwrap();
            assert(m2[x] == m[x]);
            assert(leaf(m2, root, v) == leaf(m, root, v));
        }
    }
    assert forall|v: u64| #[trigger] blocked(m2, root, v) == blocked(m, root, v) by {
        lemma_leaf_write_loc(m, m2, tables, root, va, t, w, v, 0);
        lemma_leaf_write_loc(m, m2, tables, root, va, t, w, v, 1);
        lemma_leaf_write_loc(m, m2, tables, root, va, t, w, v, 2);
    }
    assert forall|f: u64| #[trigger] reaches(m2, root, f) == reaches(m, root, f) by {
        if reaches(m, root, f) {
            let (v, l) = choose|v: u64, l: int| 0 <= l <= 3 && #[trigger] table_loc(m, root, v, l) == Some(f);
            lemma_leaf_write_loc(m, m2, tables, root, va, t, w, v, l);
        }
        if reaches(m2, root, f) {
            let (v, l) = choose|v: u64, l: int| 0 <= l <= 3 && #[trigger] table_loc(m2, root, v, l) == Some(f);
            lemma_leaf_write_loc(m, m2, tables, root, va, t, w, v, l);
        }
    }
}

proof fn lemma_leaf_write_loc(
    m: Map<u64, Seq<u64>>,
    m2: Map<u64, Seq<u64>>,
    tables: Set<u64>,
    root: u64,
    va: u64,
    t: u64,
    w: u64,
    v: u64,
    l: int,
)
    requires
        pt_wf(m, tables, root),
        table_loc(m, root, va, 3) == Some(t),
        m2[t] == m[t].update(lidx(3, va) as int, w),
        forall|x: u64| x != t ==> #[trigger] m2[x] == m[x],
        0 <= l <= 3,
    ensures
        table_loc(m2, root, v, l) == table_loc(m, root, v, l),
        l < 3 && table_loc(m, root, v, l) is Some ==> table_loc(m, root, v, l).unwrap() != t,
        l == 3 && table_loc(m, root, v, l) is Some && table_loc(m, root, v, l).unwrap() != t
            ==> m2[table_loc(m, root, v, l).unwrap()] == m[table_loc(m, root, v, l).unwrap()],
    decreases l,
{
    if l > 0 {
        lemma_leaf_write_loc(m, m2, tables, root, va, t, w, v, l - 1);
    }
    if table_loc(m, root, v, l) is Some && l < 3 {
        assert(table_loc(m, root, va, 3) is Some);
    }
}

/// The premises of installing a fresh, zeroed table `n` under entry
/// `lidx(l, va)` of the level-`l` table `t` reached for `va`.
pub open spec fn install_step(
    m: Map<u64, Seq<u64>>,
    m2: Map<u64, Seq<u64>>,
    tables: Set<u64>,
    root: u64,
    va: u64,
    l: int,
    t: u64,
    n: u64,
) -> bool {
    &&& pt_wf(m, tables, root)
    &&& 0 <= l < 3
    &&& table_loc(m, root, va, l) == Some(t)
    &&& m[t].len() == 512
    &&& !is_valid(m[t][lidx(l, va) as int])
    &&& !tables.contains(n)
    &&& n & ADDR_MASK == n
    &&& table_entry(n) & ADDR_MASK == n
    &&& is_valid(table_entry(n))
    &&& is_table_desc(table_entry(n))
    &&& m2[t] == m[t].update(lidx(l, va) as int, table_entry(n))
    &&& m2[n] == Seq::new(512, |i: int| 0u64)
    &&& forall|x: u64| x != t && x != n ==> #[trigger] m2[x] == m[x]
}

proof fn lemma_install_loc(
    m: Map<u64, Seq<u64>>,
    m2: Map<u64, Seq<u64>>,
    tables: Set<u64>,
    root: u64,
    va: u64,
    l: int,
    t: u64,
    n: u64,
    v: u64,
    k: int,
)
    requires
        install_step(m, m2, tables, root, va, l, t, n),
        0 <= k <= 3,
        0u64 & 1u64 == 0,
    ensures
        (pfx(l + 1, v) != pfx(l + 1, va) || k <= l) ==> table_loc(m2, root, v, k) == table_loc(m, root, v, k),
        (pfx(l + 1, v) == pfx(l + 1, va) && k == l + 1) ==> table_loc(m2, root, v, k) == Some(n) && table_loc(m, root, v, k) is None,
        (pfx(l + 1, v) == pfx(l + 1, va) && k > l + 1) ==> table_loc(m2, root, v, k) is None && table_loc(m, root, v, k) is None,
    decreases k,
{
    if k > 0 {
        lemma_install_loc(m, m2, tables, root, va, l, t, n, v, k - 1);
        lemma_pfx_step_pub(l, v, va);
        let same = pfx(l + 1, v) == pfx(l + 1, va);
        if !same || k - 1 < l {
            match table_loc(m, root, v, k - 1) {
                Some(x) => {
                    assert(tables.contains(x));
                    if x == t {
                        assert(k - 1 == l && pfx(l, v) == pfx(l, va));
                        assert(lidx(l, v) != lidx(l, va));
                        lemma_lidx_bound(l, v);
                        lemma_lidx_bound(l, va);
                        assert(m2[t][lidx(l, v) as int] == m[t][lidx(l, v) as int]);
                    } else {
                        assert(m2[x] == m[x]);
                    }
                },
                None => {},
            }
        } else if k - 1 == l {
            lemma_loc_pfx(m, root, v, va, l + 1);
            lemma_lidx_bound(l, va);
            assert(m2[t][lidx(l, va) as int] == table_entry(n));
        } else {
            if k - 1 == l + 1 {
                lemma_lidx_bound(k - 1, v);
                assert(m2[n][lidx(k - 1, v) as int] == 0u64);
            }
        }
    }
}

/// Installing a fresh zeroed table keeps the tree well formed, adds `n` as
/// the level-`l + 1` table for `va`, and changes the meaning of no address.
pub proof fn lemma_install(
    m: Map<u64, Seq<u64>>,
    m2: Map<u64, Seq<u64>>,
    tables: Set<u64>,
    root: u64,
    va: u64,
    l: int,
    t: u64,
    n: u64,
)
    requires
        install_step(m, m2, tables, root, va, l, t, n),
    ensures
        pt_wf(m2, tables.insert(n), root),
        table_loc(m2, root, va, l + 1) == Some(n),
        forall|v: u64, k: int| 0 <= k <= l ==> #[trigger] table_loc(m2, root, v, k) == table_loc(m, root, v, k),
        forall|v: u64| #[trigger] pte_view(m2, root, v) == pte_view(m, root, v),
        forall|v: u64| #[trigger] blocked(m2, root, v) == blocked(m, root, v),
        forall|f: u64| #[trigger] reaches(m2, root, f) <==> (reaches(m, root, f) || f == n),
{
    assert(0u64 & 1u64 == 0) by (bit_vector);
    lemma_install_loc(m, m2, tables, root, va, l, t, n, va, l + 1);
    assert forall|v: u64, k: int| 0 <= k <= l implies #[trigger] table_loc(m2, root, v, k) == table_loc(m, root, v, k) by {
        lemma_install_loc(m, m2, tables, root, va, l, t, n, v, k);
    }
    assert forall|v: u64| #[trigger] pte_view(m2, root, v) == pte_view(m, root, v) by {
        lemma_install_loc(m, m2, tables, root, va, l, t, n, v, 3);
        if pfx(l + 1, v) == pfx(l + 1, va) {
            if l + 1 == 3 {
                lemma_lidx_bound(3, v);
                assert(m2[n][lidx(3, v) as int] == 0u64);
            }
        } else {
            match table_loc(m, root, v, 3) {
                Some(x) => {
                    assert(tables.contains(x));
                    if x == t {
                        assert(false);
                    }
                    assert(m2[x] == m[x]);
                },
                None => {},
            }
        }
    }
    assert forall|v: u64| #[trigger] blocked(m2, root, v) == blocked(m, root, v) by {
        lemma_install_blocked(m, m2, tables, root, va, l, t, n, v, 0);
        lemma_install_blocked(m, m2, tables, root, va, l, t, n, v, 1);
        lemma_install_blocked(m, m2, tables, root, va, l, t, n, v, 2);
    }
    assert forall|v: u64, k: int| 0 <= k <= 3 && (#[trigger] table_loc(m2, root, v, k)) is Some
        implies tables.insert(n).contains(table_loc(m2, root, v, k).unwrap()) by {
        lemma_install_loc(m, m2, tables, root, va, l, t, n, v, k);
    }
    assert forall|v1: u64, l1: int, v2: u64, l2: int|
        0 <= l1 <= 3 && 0 <= l2 <= 3 && (#[trigger] table_loc(m2, root, v1, l1)) is Some
        && table_loc(m2, root, v1, l1) == #[trigger] table_loc(m2, root, v2, l2)
        implies l1 == l2 && pfx(l1, v1) == pfx(l1, v2) by {
        lemma_install_loc(m, m2, tables, root, va, l, t, n, v1, l1);
        lemma_install_loc(m, m2, tables, root, va, l, t, n, v2, l2);
        if table_loc(m2, root, v1, l1) == Some(n) {
            if table_loc(m, root, v1, l1) == Some(n) {
                assert(tables.contains(n));
            }
            if table_loc(m, root, v2, l2) == Some(n) {
                assert(tables.contains(n));
            }
            assert(pfx(l + 1, v1) == pfx(l + 1, va));
            assert(pfx(l + 1, v2) == pfx(l + 1, va));
        } else {
            if table_loc(m, root, v2, l2) == Some(n) {
                assert(tables.contains(n));
            }
        }
    }
    assert forall|f: u64| #[trigger] reaches(m2, root, f) <==> (reaches(m, root, f) || f == n) by {
        if reaches(m, root, f) {
            let (v, k) = choose|v: u64, k: int| 0 <= k <= 3 && #[trigger] table_loc(m, root, v, k) == Some(f);
            lemma_install_loc(m, m2, tables, root, va, l, t, n, v, k);
            assert(table_loc(m2, root, v, k) == Some(f));
        }
        if f == n {
            assert(table_loc(m2, root, va, l + 1) == Some(n));
        }
        if reaches(m2, root, f) {
            let (v, k) = choose|v: u64, k: int| 0 <= k <= 3 && #[trigger] table_loc(m2, root, v, k) == Some(f);
            lemma_install_loc(m, m2, tables, root, va, l, t, n, v, k);
        }
    }
}

proof fn lemma_install_blocked(
    m: Map<u64, Seq<u64>>,
    m2: Map<u64, Seq<u64>>,
    tables: Set<u64>,
    root: u64,
    va: u64,
    l: int,
    t: u64,
    n: u64,
    v: u64,
    k: int,
)
    requires
        install_step(m, m2, tables, root, va, l, t, n),
        0 <= k < 3,
    ensures
        blocked_at(m2, root, v, k) == blocked_at(m, root, v, k),
{
    assert(0u64 & 1u64 == 0) by (bit_vector);
    lemma_install_loc(m, m2, tables, root, va, l, t, n, v, k);
    lemma_pfx_step_pub(l, v, va);
    lemma_lidx_bound(k, v);
    if pfx(l + 1, v) == pfx(l + 1, va) && k == l + 1 {
        assert(m2[n][lidx(k, v) as int] == 0u64);
    } else if pfx(l + 1, v) == pfx(l + 1, va) && k > l + 1 {
    } else if pfx(l + 1, v) != pfx(l + 1, va) || k <= l {
        match table_loc(m, root, v, k) {
            Some(x) => {
                assert(tables.contains(x));
                if x == t {
                    assert(k == l && pfx(l, v) == pfx(l, va));
                    if lidx(l, v) == lidx(l, va) {
                        assert(m2[t][lidx(l, v) as int] == table_entry(n));
                    } else {
                        lemma_lidx_bound(l, va);
                        assert(m2[t][lidx(l, v) as int] == m[t][lidx(l, v) as int]);
                    }
                } else {
                    assert(m2[x] == m[x]);
                }
            },
            None => {},
        }
    }
}

/// The tree at `r`, apart from the one at `root`, is unchanged and still
/// apart from it.
pub open spec fn tree_kept(
    m: Map<u64, Seq<u64>>,
    m2: Map<u64, Seq<u64>>,
    t2: Set<u64>,
    root: u64,
    r: u64,
) -> bool {
    &&& pt_wf(m2, t2, r)
    &&& pt_disjoint(m2, root, r)
    &&& forall|va: u64, l: int| 0 <= l <= 3 ==> #[trigger] table_loc(m2, r, va, l) == table_loc(m, r, va, l)
    &&& forall|va: u64| #[trigger] pte_view(m2, r, va) == pte_view(m, r, va)
}

/// Every well-formed tree apart from the one at `root` is kept.
pub open spec fn others_kept(
    m: Map<u64, Seq<u64>>,
    t: Set<u64>,
    m2: Map<u64, Seq<u64>>,
    t2: Set<u64>,
    root: u64,
) -> bool {
    forall|r: u64| pt_wf(m, t, r) && #[trigger] pt_disjoint(m, root, r) ==> tree_kept(m, m2, t2, root, r)
}

/// Every tree is kept by no change at all.
pub proof fn lemma_others_refl(m: Map<u64, Seq<u64>>, t: Set<u64>, root: u64)
    ensures
        others_kept(m, t, m, t, root),
{
}

/// Keeping the other trees composes over two steps.
pub proof fn lemma_others_trans(
    m1: Map<u64, Seq<u64>>,
    t1: Set<u64>,
    m2: Map<u64, Seq<u64>>,
    t2: Set<u64>,
    m3: Map<u64, Seq<u64>>,
    t3: Set<u64>,
    root: u64,
)
    requires
        others_kept(m1, t1, m2, t2, root),
        others_kept(m2, t2, m3, t3, root),
    ensures
        others_kept(m1, t1, m3, t3, root),
{
    assert forall|r: u64| pt_wf(m1, t1, r) && #[trigger] pt_disjoint(m1, root, r) implies tree_kept(m1, m3, t3, root, r) by {
        assert(tree_kept(m1, m2, t2, root, r));
        assert(pt_disjoint(m2, root, r));
        assert(tree_kept(m2, m3, t3, root, r));
    }
}

/// Installing a table under `root` keeps every tree apart from it.
pub proof fn lemma_install_others(
    m: Map<u64, Seq<u64>>,
    m2: Map<u64, Seq<u64>>,
    tables: Set<u64>,
    root: u64,
    va: u64,
    l: int,
    t: u64,
    n: u64,
)
    requires
        install_step(m, m2, tables, root, va, l, t, n),
    ensures
        others_kept(m, tables, m2, tables.insert(n), root),
{
    lemma_install(m, m2, tables, root, va, l, t, n);
    assert forall|r: u64| pt_wf(m, tables, r) && #[trigger] pt_disjoint(m, root, r) implies tree_kept(m, m2, tables.insert(n), root, r) by {
        assert forall|v: u64, k: int| 0 <= k <= 3 && (#[trigger] table_loc(m, r, v, k)) is Some
            implies m2[table_loc(m, r, v, k).unwrap()] == m[table_loc(m, r, v, k).unwrap()] by {
            let x = table_loc(m, r, v, k).unwrap();
            assert(tables.contains(x));
            assert(table_loc(m, root, va, l) != table_loc(m, r, v, k));
        }
        lemma_agree(m, m2, r, tables, tables.insert(n));
        assert forall|v1: u64, l1: int, v2: u64, l2: int|
            0 <= l1 <= 3 && 0 <= l2 <= 3 && (#[trigger] table_loc(m2, root, v1, l1)) is Some
            implies table_loc(m2, root, v1, l1) != #[trigger] table_loc(m2, r, v2, l2) by {
            let x = table_loc(m2, root, v1, l1).unwrap();
            assert(reaches(m2, root, x));
            assert(table_loc(m2, r, v2, l2) == table_loc(m, r, v2, l2));
            if x == n {
                if table_loc(m, r, v2, l2) == Some(n) {
                    assert(tables.contains(n));
                }
            } else {
                assert(reaches(m, root, x));
                let (w, j) = choose|w: u64, j: int| 0 <= j <= 3 && #[trigger] table_loc(m, root, w, j) == Some(x);
                assert(table_loc(m, root, w, j) != table_loc(m, r, v2, l2));
            }
        }
    }
}

/// Writing a leaf of `root` keeps every tree apart from it.
pub proof fn lemma_leaf_others(
    m: Map<u64, Seq<u64>>,
    m2: Map<u64, Seq<u64>>,
    tables: Set<u64>,
    root: u64,
    va: u64,
    t: u64,
    w: u64,
)
    requires
        pt_wf(m, tables, root),
        table_loc(m, root, va, 3) == Some(t),
        m[t].len() == 512,
        m2[t] == m[t].update(lidx(3, va) as int, w),
        forall|x: u64| x != t ==> #[trigger] m2[x] == m[x],
    ensures
        others_kept(m, tables, m2, tables, root),
{
    lemma_leaf_write(m, m2, tables, root, va, t, w);
    assert forall|r: u64| pt_wf(m, tables, r) && #[trigger] pt_disjoint(m, root, r) implies tree_kept(m, m2, tables, root, r) by {
        assert forall|v: u64, k: int| 0 <= k <= 3 && (#[trigger] table_loc(m, r, v, k)) is Some
            implies m2[table_loc(m, r, v, k).unwrap()] == m[table_loc(m, r, v, k).unwrap()] by {
            assert(table_loc(m, root, va, 3) != table_loc(m, r, v, k));
        }
        lemma_agree(m, m2, r, tables, tables);
        assert forall|v1: u64, l1: int, v2: u64, l2: int|
            0 <= l1 <= 3 && 0 <= l2 <= 3 && (#[trigger] table_loc(m2, root, v1, l1)) is Some
            implies table_loc(m2, root, v1, l1) != #[trigger] table_loc(m2, r, v2, l2) by {
            assert(table_loc(m2, root, v1, l1) == table_loc(m, root, v1, l1));
            assert(table_loc(m2, r, v2, l2) == table_loc(m, r, v2, l2));
        }
    }
}

/// Writing a frame that is no table keeps every tree, the one at `root`
/// included.
pub proof fn lemma_data_others(
    m: Map<u64, Seq<u64>>,
    m2: Map<u64, Seq<u64>>,
    t: Set<u64>,
    t2: Set<u64>,
    f: u64,
    root: u64,
)
    requires
        pt_wf(m, t, root),
        !t.contains(f),
        t.subset_of(t2),
        forall|x: u64| x != f ==> #[trigger] m2[x] == m[x],
    ensures
        others_kept(m, t, m2, t2, root),
        pt_wf(m2, t2, root),
        forall|va: u64| #[trigger] pte_view(m2, root, va) == pte_view(m, root, va),
        forall|va: u64| #[trigger] blocked(m2, root, va) == blocked(m, root, va),
{
    lemma_agree(m, m2, root, t, t2);
    assert forall|r: u64| pt_wf(m, t, r) && #[trigger] pt_disjoint(m, root, r) implies tree_kept(m, m2, t2, root, r) by {
        lemma_agree(m, m2, r, t, t2);
        assert forall|v1: u64, l1: int, v2: u64, l2: int|
            0 <= l1 <= 3 && 0 <= l2 <= 3 && (#[trigger] table_loc(m2, root, v1, l1)) is Some
            implies table_loc(m2, root, v1, l1) != #[trigger] table_loc(m2, r, v2, l2) by {
            assert(table_loc(m2, root, v1, l1) == table_loc(m, root, v1, l1));
            assert(table_loc(m2, r, v2, l2) == table_loc(m, r, v2, l2));
        }
    }
}

/// Two trees are apart whichever is named first.
pub proof fn lemma_disjoint_sym(m: Map<u64, Seq<u64>>, r1: u64, r2: u64)
    requires
        pt_disjoint(m, r1, r2),
    ensures
        pt_disjoint(m, r2, r1),
{
    assert forall|va1: u64, l1: int, va2: u64, l2: int|
        0 <= l1 <= 3 && 0 <= l2 <= 3 && (#[trigger] table_loc(m, r2, va1, l1)) is Some
        implies table_loc(m, r2, va1, l1) != #[trigger] table_loc(m, r1, va2, l2) by {
        if table_loc(m, r1, va2, l2) is Some {
            assert(table_loc(m, r1, va2, l2) != table_loc(m, r2, va1, l1));
        }
    }
}

} // verus!
