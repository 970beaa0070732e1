//! The allocation table as a mathematical object: chains, free blocks, and
//! what allocating or freeing a chain does to the table.
use vstd::prelude::*;

use crate::disk::FatItem;

verus! {

/// Walks the table from block `cur`, with at most `fuel` steps: a
/// `ClusterNo` link is followed, `EoF` ends the chain, a `BadCluster` is
/// skipped by moving to the next block. Gives the blocks visited, or the
/// block where the walk broke down (a free block, a block past the end, or
/// the block reached when the steps ran out).
pub open spec fn chain_from(fat: Seq<FatItem>, cur: nat, fuel: nat) -> Result<Seq<usize>, usize>
    decreases fuel,
{
    if fuel == 0 || cur >= fat.len() {
        Err(cur as usize)
    } else {
        match fat[cur as int] {
            FatItem::BadCluster => chain_from(fat, cur + 1, (fuel - 1) as nat),
            FatItem::EoF => Ok(seq![cur as usize]),
            FatItem::ClusterNo(next) => match chain_from(fat, next as nat, (fuel - 1) as nat) {
                Ok(rest) => Ok(seq![cur as usize] + rest),
                Err(at) => Err(at),
            },
            FatItem::NotUsed => Err(cur as usize),
        }
    }
}

/// The chain that starts at block `first`. A walk that does not end within
/// as many steps as there are blocks has gone round a cycle.
pub open spec fn chain(fat: Seq<FatItem>, first: usize) -> Result<Seq<usize>, usize> {
    chain_from(fat, first as nat, fat.len())
}

/// Whether the entry marks a block in use.
pub open spec fn in_use(item: FatItem) -> bool {
    item is ClusterNo || item is EoF
}

/// The free blocks, in increasing order.
pub open spec fn free_list(fat: Seq<FatItem>) -> Seq<usize>
    decreases fat.len(),
{
    if fat.len() == 0 {
        Seq::empty()
    } else {
        let rest = free_list(fat.drop_last());
        if fat.last() == FatItem::NotUsed {
            rest.push((fat.len() - 1) as usize)
        } else {
            rest
        }
    }
}

/// The blocks in use, in increasing order.
pub open spec fn used_list(fat: Seq<FatItem>) -> Seq<usize>
    decreases fat.len(),
{
    if fat.len() == 0 {
        Seq::empty()
    } else {
        let rest = used_list(fat.drop_last());
        if in_use(fat.last()) {
            rest.push((fat.len() - 1) as usize)
        } else {
            rest
        }
    }
}

/// The defective blocks, in increasing order.
pub open spec fn bad_list(fat: Seq<FatItem>) -> Seq<usize>
    decreases fat.len(),
{
    if fat.len() == 0 {
        Seq::empty()
    } else {
        let rest = bad_list(fat.drop_last());
        if fat.last() == FatItem::BadCluster {
            rest.push((fat.len() - 1) as usize)
        } else {
            rest
        }
    }
}

/// The blocks on the chains that start at `heads`.
pub open spec fn reach(fat: Seq<FatItem>, heads: Seq<usize>) -> Set<usize> {
    Set::new(
        |b: usize| exists|k: int| 0 <= k < heads.len() && #[trigger] chain(fat, heads[k])->Ok_0.contains(b),
    )
}

/// The chains that start at `heads` account for the table: each is whole,
/// no two share a block, and every block in use lies on one of them.
pub open spec fn accounted(fat: Seq<FatItem>, heads: Seq<usize>) -> bool {
    &&& forall|k: int| 0 <= k < heads.len() ==> #[trigger] chain(fat, heads[k]) is Ok
    &&& forall|k: int, l: int, b: usize|
        0 <= k < heads.len() && 0 <= l < heads.len() && k != l && #[trigger] chain(fat, heads[k])->Ok_0.contains(b)
            ==> !#[trigger] chain(fat, heads[l])->Ok_0.contains(b)
    &&& forall|i: int| 0 <= i < fat.len() && in_use(#[trigger] fat[i]) ==> reach(fat, heads).contains(i as usize)
}

/// `new` is `old` with the blocks `s` wired into one chain, in order, and
/// every other entry kept.
pub open spec fn is_linked(old: Seq<FatItem>, new: Seq<FatItem>, s: Seq<usize>) -> bool {
    &&& new.len() == old.len()
    &&& forall|k: int|
        0 <= k < s.len() - 1 ==> #[trigger] new[s[k] as int] == FatItem::ClusterNo(s[k + 1])
    &&& s.len() > 0 ==> new[s.last() as int] == FatItem::EoF
    &&& forall|i: int| 0 <= i < old.len() && !s.contains(i as usize) ==> #[trigger] new[i] == old[i]
}

/// `new` is `old` with the blocks `s` marked free and every other entry kept.
pub open spec fn is_freed(old: Seq<FatItem>, new: Seq<FatItem>, s: Seq<usize>) -> bool {
    &&& new.len() == old.len()
    &&& forall|i: int|
        0 <= i < old.len() ==> #[trigger] new[i] == if s.contains(i as usize) {
            FatItem::NotUsed
        } else {
            old[i]
        }
}

/// Strictly increasing, hence free of duplicates.
pub open spec fn increasing(s: Seq<usize>) -> bool {
    forall|i: int, j: int| 0 <= i < j < s.len() ==> s[i] < s[j]
}

/// Every block of a chain lies in the table and is in use, and the last
/// one ends the chain.
pub proof fn lemma_chain_blocks(fat: Seq<FatItem>, cur: nat, fuel: nat)
    requires
        fat.len() <= usize::MAX,
        chain_from(fat, cur, fuel) is Ok,
    ensures
        ({
            let s = chain_from(fat, cur, fuel)->Ok_0;
            &&& s.len() >= 1
            &&& s.len() <= fuel
            &&& forall|k: int| 0 <= k < s.len() ==> #[trigger] s[k] < fat.len()
            &&& forall|k: int| 0 <= k < s.len() ==> in_use(#[trigger] fat[s[k] as int])
            &&& fat[s.last() as int] == FatItem::EoF
        }),
    decreases fuel,
{
    match fat[cur as int] {
        FatItem::BadCluster => lemma_chain_blocks(fat, cur + 1, (fuel - 1) as nat),
        FatItem::ClusterNo(next) => {
            lemma_chain_blocks(fat, next as nat, (fuel - 1) as nat);
            let rest = chain_from(fat, next as nat, (fuel - 1) as nat)->Ok_0;
            let s = seq![cur as usize] + rest;
            assert forall|k: int| 0 <= k < s.len() implies #[trigger] s[k] < fat.len() && in_use(
                fat[s[k] as int],
            ) by {
                if k > 0 {
                    assert(s[k] == rest[k - 1]);
                } else {
                    assert(s[0] == cur);
                }
            }
            assert(s.last() == rest.last());
        },
        _ => {},
    }
}

/// More steps do not change a walk that ended.
pub proof fn lemma_chain_fuel(fat: Seq<FatItem>, cur: nat, fuel: nat, more: nat)
    requires
        chain_from(fat, cur, fuel) is Ok,
        more >= fuel,
    ensures
        chain_from(fat, cur, more) == chain_from(fat, cur, fuel),
    decreases fuel,
{
    match fat[cur as int] {
        FatItem::BadCluster => lemma_chain_fuel(fat, cur + 1, (fuel - 1) as nat, (more - 1) as nat),
        FatItem::ClusterNo(next) => lemma_chain_fuel(
            fat,
            next as nat,
            (fuel - 1) as nat,
            (more - 1) as nat,
        ),
        _ => {},
    }
}

/// The free list holds exactly the free blocks, in increasing order.
pub proof fn lemma_free_list(fat: Seq<FatItem>)
    requires
        fat.len() <= usize::MAX,
    ensures
        free_list(fat).len() <= fat.len(),
        increasing(free_list(fat)),
        forall|k: int|
            0 <= k < free_list(fat).len() ==> #[trigger] free_list(fat)[k] < fat.len()
                && fat[free_list(fat)[k] as int] == FatItem::NotUsed,
        forall|i: int|
            0 <= i < fat.len() && fat[i] == FatItem::NotUsed ==> free_list(fat).contains(
                i as usize,
            ),
    decreases fat.len(),
{
    if fat.len() > 0 {
        let p = fat.drop_last();
        lemma_free_list(p);
        let s = free_list(fat);
        let r = free_list(p);
        assert forall|k: int| 0 <= k < s.len() implies #[trigger] s[k] < fat.len() && fat[s[k] as int]
            == FatItem::NotUsed by {
            if k < r.len() {
                assert(s[k] == r[k]);
                assert(p[r[k] as int] == fat[r[k] as int]);
            }
        }
        assert forall|i: int, j: int| 0 <= i < j < s.len() implies s[i] < s[j] by {
            if j < r.len() {
                assert(s[i] == r[i] && s[j] == r[j]);
            } else {
                assert(s[i] == r[i]);
            }
        }
        assert forall|i: int| 0 <= i < fat.len() && fat[i] == FatItem::NotUsed implies s.contains(
            i as usize,
        ) by {
            if i < fat.len() - 1 {
                assert(p[i] == fat[i]);
                let k = choose|k: int| 0 <= k < free_list(p).len() && free_list(p)[k] == i as usize;
                assert(s[k] == i as usize);
            } else {
                assert(s.last() == i as usize);
            }
        }
    }
}

/// In a table where every block is free, the free list is every block in order.
pub proof fn lemma_free_list_all(fat: Seq<FatItem>)
    requires
        fat.len() <= usize::MAX,
        forall|i: int| 0 <= i < fat.len() ==> #[trigger] fat[i] == FatItem::NotUsed,
    ensures
        free_list(fat).len() == fat.len(),
        forall|k: int| 0 <= k < fat.len() ==> #[trigger] free_list(fat)[k] == k,
    decreases fat.len(),
{
    if fat.len() > 0 {
        let p = fat.drop_last();
        lemma_free_list_all(p);
        assert(fat.last() == FatItem::NotUsed);
    }
}

/// The free list of a prefix of the table is a prefix of the free list.
pub proof fn lemma_free_list_prefix(fat: Seq<FatItem>, i: int)
    requires
        0 <= i <= fat.len(),
    ensures
        free_list(fat.subrange(0, i)).len() <= free_list(fat).len(),
        free_list(fat.subrange(0, i)) == free_list(fat).subrange(
            0,
            free_list(fat.subrange(0, i)).len() as int,
        ),
    decreases fat.len() - i,
{
    if i < fat.len() {
        lemma_free_list_prefix(fat, i + 1);
        let a = fat.subrange(0, i);
        let b = fat.subrange(0, i + 1);
        assert(b.drop_last() =~= a);
        let fb = free_list(fat);
        let lb = free_list(b).len() as int;
        let la = free_list(a).len() as int;
        assert(free_list(a) =~= fb.subrange(0, la));
    } else {
        assert(fat.subrange(0, i) =~= fat);
    }
}

/// The walk from any block of a chain gives the rest of that chain.
pub proof fn lemma_chain_suffix(fat: Seq<FatItem>, cur: nat, fuel: nat, i: int)
    requires
        fat.len() <= usize::MAX,
        chain_from(fat, cur, fuel) is Ok,
        0 <= i < chain_from(fat, cur, fuel)->Ok_0.len(),
    ensures
        ({
            let s = chain_from(fat, cur, fuel)->Ok_0;
            chain_from(fat, s[i] as nat, fuel) == Ok::<Seq<usize>, usize>(s.subrange(i, s.len() as int))
        }),
    decreases fuel,
{
    let s = chain_from(fat, cur, fuel)->Ok_0;
    lemma_chain_blocks(fat, cur, fuel);
    match fat[cur as int] {
        FatItem::BadCluster => {
            lemma_chain_suffix(fat, cur + 1, (fuel - 1) as nat, i);
            lemma_chain_fuel(fat, s[i] as nat, (fuel - 1) as nat, fuel);
        },
        FatItem::EoF => {
            assert(s.subrange(0, 1) =~= s);
        },
        FatItem::ClusterNo(next) => {
            let rest = chain_from(fat, next as nat, (fuel - 1) as nat)->Ok_0;
            if i == 0 {
                assert(s.subrange(0, s.len() as int) =~= s);
            } else {
                lemma_chain_suffix(fat, next as nat, (fuel - 1) as nat, i - 1);
                assert(s[i] == rest[i - 1]);
                assert(rest.subrange(i - 1, rest.len() as int) =~= s.subrange(i, s.len() as int));
                lemma_chain_fuel(fat, s[i] as nat, (fuel - 1) as nat, fuel);
            }
        },
        FatItem::NotUsed => {},
    }
}

/// A chain visits no block twice.
pub proof fn lemma_chain_distinct(fat: Seq<FatItem>, cur: nat, fuel: nat)
    requires
        fat.len() <= usize::MAX,
        chain_from(fat, cur, fuel) is Ok,
    ensures
        chain_from(fat, cur, fuel)->Ok_0.no_duplicates(),
{
    let s = chain_from(fat, cur, fuel)->Ok_0;
    assert forall|i: int, j: int| 0 <= i < s.len() && 0 <= j < s.len() && i != j implies s[i] != s[j] by {
        if s[i] == s[j] {
            lemma_chain_suffix(fat, cur, fuel, i);
            lemma_chain_suffix(fat, cur, fuel, j);
            assert(s.subrange(i, s.len() as int).len() == s.subrange(j, s.len() as int).len());
        }
    }
}

/// A walk depends only on the entries of the blocks it collects and of
/// the defective blocks: a table that keeps those keeps the walk.
pub proof fn lemma_chain_frame(fat: Seq<FatItem>, other: Seq<FatItem>, cur: nat, fuel: nat)
    requires
        fat.len() <= usize::MAX,
        other.len() == fat.len(),
        chain_from(fat, cur, fuel) is Ok,
        forall|j: int| 0 <= j < fat.len() && fat[j] == FatItem::BadCluster ==> #[trigger] other[j] == fat[j],
        forall|k: int|
            0 <= k < chain_from(fat, cur, fuel)->Ok_0.len() ==> #[trigger] other[chain_from(
                fat,
                cur,
                fuel,
            )->Ok_0[k] as int] == fat[chain_from(fat, cur, fuel)->Ok_0[k] as int],
    ensures
        chain_from(other, cur, fuel) == chain_from(fat, cur, fuel),
    decreases fuel,
{
    let s = chain_from(fat, cur, fuel)->Ok_0;
    match fat[cur as int] {
        FatItem::BadCluster => {
            lemma_chain_frame(fat, other, cur + 1, (fuel - 1) as nat);
        },
        FatItem::EoF => {
            assert(s[0] == cur);
        },
        FatItem::ClusterNo(next) => {
            let rest = chain_from(fat, next as nat, (fuel - 1) as nat)->Ok_0;
            assert(s[0] == cur);
            assert forall|k: int| 0 <= k < rest.len() implies #[trigger] other[rest[k] as int] == fat[rest[k] as int] by {
                assert(s[k + 1] == rest[k]);
            }
            lemma_chain_frame(fat, other, next as nat, (fuel - 1) as nat);
        },
        FatItem::NotUsed => {},
    }
}

/// Marking a block in the middle of a chain defective, where the chain goes
/// on at the next block, drops that block from the walk, which still ends.
pub proof fn lemma_bad_block_skipped(fat: Seq<FatItem>, cur: nat, fuel: nat, i: int)
    requires
        fat.len() <= usize::MAX,
        chain_from(fat, cur, fuel) is Ok,
        0 <= i < chain_from(fat, cur, fuel)->Ok_0.len() - 1,
        chain_from(fat, cur, fuel)->Ok_0[i + 1] == chain_from(fat, cur, fuel)->Ok_0[i] + 1,
    ensures
        ({
            let s = chain_from(fat, cur, fuel)->Ok_0;
            chain_from(fat.update(s[i] as int, FatItem::BadCluster), cur, fuel) == Ok::<
                Seq<usize>,
                usize,
            >(s.remove(i))
        }),
    decreases fuel,
{
    let s = chain_from(fat, cur, fuel)->Ok_0;
    let b = s[i];
    let bad = fat.update(b as int, FatItem::BadCluster);
    lemma_chain_blocks(fat, cur, fuel);
    lemma_chain_distinct(fat, cur, fuel);
    match fat[cur as int] {
        FatItem::BadCluster => {
            assert(cur != b);
            lemma_bad_block_skipped(fat, cur + 1, (fuel - 1) as nat, i);
        },
        FatItem::ClusterNo(next) => {
            let rest = chain_from(fat, next as nat, (fuel - 1) as nat)->Ok_0;
            assert(s[0] == cur);
            if i == 0 {
                lemma_chain_blocks(fat, next as nat, (fuel - 1) as nat);
                lemma_chain_suffix(fat, next as nat, (fuel - 1) as nat, 0);
                assert(rest[0] == s[1]);
                assert(rest.subrange(0, rest.len() as int) =~= rest);
                assert forall|k: int| 0 <= k < rest.len() implies #[trigger] bad[rest[k] as int] == fat[rest[k] as int] by {
                    assert(s[k + 1] == rest[k]);
                    assert(s[k + 1] != s[0]);
                }
                lemma_chain_frame(fat, bad, (b + 1) as nat, (fuel - 1) as nat);
                assert(s.remove(0) =~= rest);
            } else {
                assert(s[0] != s[i]);
                lemma_bad_block_skipped(fat, next as nat, (fuel - 1) as nat, i - 1);
                assert(rest[i - 1] == s[i] && rest[i] == s[i + 1]);
                assert(seq![cur as usize] + rest.remove(i - 1) =~= s.remove(i));
            }
        },
        _ => {},
    }
}

/// Every block is free, in use, or defective.
pub proof fn lemma_partition(fat: Seq<FatItem>)
    ensures
        free_list(fat).len() + used_list(fat).len() + bad_list(fat).len() == fat.len(),
    decreases fat.len(),
{
    if fat.len() > 0 {
        lemma_partition(fat.drop_last());
    }
}

/// The used list holds exactly the blocks in use, each once.
pub proof fn lemma_used_list(fat: Seq<FatItem>)
    requires
        fat.len() <= usize::MAX,
    ensures
        used_list(fat).no_duplicates(),
        forall|k: int|
            0 <= k < used_list(fat).len() ==> #[trigger] used_list(fat)[k] < fat.len() && in_use(
                fat[used_list(fat)[k] as int],
            ),
        forall|i: int| 0 <= i < fat.len() && in_use(fat[i]) ==> used_list(fat).contains(i as usize),
    decreases fat.len(),
{
    if fat.len() > 0 {
        let p = fat.drop_last();
        lemma_used_list(p);
        let s = used_list(fat);
        let r = used_list(p);
        assert forall|k: int| 0 <= k < s.len() implies #[trigger] s[k] < fat.len() && in_use(fat[s[k] as int]) by {
            if k < r.len() {
                assert(s[k] == r[k]);
                assert(p[r[k] as int] == fat[r[k] as int]);
            }
        }
        assert forall|i: int, j: int| 0 <= i < s.len() && 0 <= j < s.len() && i != j implies s[i] != s[j] by {
            if i < r.len() && j < r.len() {
                assert(s[i] == r[i] && s[j] == r[j]);
            } else if i < r.len() {
                assert(s[i] == r[i]);
            } else if j < r.len() {
                assert(s[j] == r[j]);
            }
        }
        assert forall|i: int| 0 <= i < fat.len() && in_use(fat[i]) implies s.contains(i as usize) by {
            if i < fat.len() - 1 {
                assert(p[i] == fat[i]);
                let k = choose|k: int| 0 <= k < r.len() && r[k] == i as usize;
                assert(s[k] == i as usize);
            } else {
                assert(s.last() == i as usize);
            }
        }
    }
}

/// Conservation: when the chains from `heads` account for the table, the
/// free blocks and the blocks on those chains together are all the blocks
/// that are not defective.
pub proof fn lemma_conservation(fat: Seq<FatItem>, heads: Seq<usize>)
    requires
        fat.len() <= usize::MAX,
        accounted(fat, heads),
    ensures
        reach(fat, heads) == used_list(fat).to_set(),
        free_list(fat).len() + reach(fat, heads).len() == fat.len() - bad_list(fat).len(),
{
    lemma_used_list(fat);
    lemma_partition(fat);
    let u = used_list(fat);
    assert forall|b: usize| reach(fat, heads).contains(b) implies u.contains(b) by {
        let k = choose|k: int| 0 <= k < heads.len() && #[trigger] chain(fat, heads[k])->Ok_0.contains(b);
        let c = chain(fat, heads[k])->Ok_0;
        lemma_chain_blocks(fat, heads[k] as nat, fat.len());
        let j = choose|j: int| 0 <= j < c.len() && c[j] == b;
        assert(in_use(fat[c[j] as int]));
    }
    assert forall|b: usize| u.contains(b) implies reach(fat, heads).contains(b) by {
        let j = choose|j: int| 0 <= j < u.len() && u[j] == b;
        assert(in_use(fat[u[j] as int]));
    }
    assert(reach(fat, heads) =~= u.to_set());
    u.unique_seq_to_set();
}

/// Allocating a chain over free blocks keeps the table accounted for, with
/// the new chain's first block as one more head.
pub proof fn lemma_conservation_allocate(fat: Seq<FatItem>, heads: Seq<usize>, new: Seq<FatItem>, s: Seq<usize>)
    requires
        fat.len() <= usize::MAX,
        accounted(fat, heads),
        is_linked(fat, new, s),
        increasing(s),
        1 <= s.len() <= fat.len(),
        forall|k: int| 0 <= k < s.len() ==> #[trigger] s[k] < fat.len() && fat[s[k] as int] == FatItem::NotUsed,
    ensures
        accounted(new, heads.push(s[0])),
{
    let h2 = heads.push(s[0]);
    lemma_linked_chain(fat, new, s, 0, fat.len());
    assert(s.subrange(0, s.len() as int) =~= s);
    assert forall|b: usize| #[trigger] s.contains(b) implies b < fat.len() && fat[b as int] == FatItem::NotUsed by {
        let j = choose|j: int| 0 <= j < s.len() && s[j] == b;
    }
    assert forall|k: int| 0 <= k < heads.len() implies #[trigger] chain(new, heads[k]) == chain(fat, heads[k]) by {
        let c = chain(fat, heads[k])->Ok_0;
        lemma_chain_blocks(fat, heads[k] as nat, fat.len());
        assert forall|j: int| 0 <= j < fat.len() && fat[j] == FatItem::BadCluster implies #[trigger] new[j] == fat[j] by {
            if s.contains(j as usize) {
                assert(fat[j] == FatItem::NotUsed);
            }
        }
        assert forall|m: int| 0 <= m < c.len() implies #[trigger] new[c[m] as int] == fat[c[m] as int] by {
            assert(in_use(fat[c[m] as int]));
            if s.contains(c[m]) {
                assert(fat[c[m] as int] == FatItem::NotUsed);
            }
        }
        lemma_chain_frame(fat, new, heads[k] as nat, fat.len());
    }
    assert forall|k: int| 0 <= k < h2.len() implies #[trigger] chain(new, h2[k]) is Ok by {
        if k < heads.len() {
            assert(h2[k] == heads[k]);
        }
    }
    assert forall|k: int, l: int, b: usize|
        0 <= k < h2.len() && 0 <= l < h2.len() && k != l && #[trigger] chain(new, h2[k])->Ok_0.contains(b)
            implies !#[trigger] chain(new, h2[l])->Ok_0.contains(b) by {
        if k < heads.len() && l < heads.len() {
            assert(h2[k] == heads[k] && h2[l] == heads[l]);
        } else {
            let o = if k < heads.len() { k } else { l };
            assert(h2[o] == heads[o]);
            let c = chain(fat, heads[o])->Ok_0;
            lemma_chain_blocks(fat, heads[o] as nat, fat.len());
            if c.contains(b) && s.contains(b) {
                let j = choose|j: int| 0 <= j < c.len() && c[j] == b;
                assert(in_use(fat[c[j] as int]));
            }
        }
    }
    assert forall|i: int| 0 <= i < new.len() && in_use(#[trigger] new[i]) implies reach(new, h2).contains(i as usize) by {
        if s.contains(i as usize) {
            assert(h2[heads.len() as int] == s[0]);
            assert(chain(new, h2[heads.len() as int])->Ok_0.contains(i as usize));
        } else {
            assert(new[i] == fat[i]);
            assert(reach(fat, heads).contains(i as usize));
            let k = choose|k: int| 0 <= k < heads.len() && #[trigger] chain(fat, heads[k])->Ok_0.contains(i as usize);
            assert(h2[k] == heads[k]);
            assert(chain(new, h2[k])->Ok_0.contains(i as usize));
        }
    }
}

/// Freeing one of the chains keeps the table accounted for by the others.
pub proof fn lemma_conservation_free(fat: Seq<FatItem>, heads: Seq<usize>, new: Seq<FatItem>, k: int)
    requires
        fat.len() <= usize::MAX,
        accounted(fat, heads),
        0 <= k < heads.len(),
        is_freed(fat, new, chain(fat, heads[k])->Ok_0),
    ensures
        accounted(new, heads.remove(k)),
{
    let s = chain(fat, heads[k])->Ok_0;
    let h2 = heads.remove(k);
    assert(chain(fat, heads[k]) is Ok);
    lemma_chain_blocks(fat, heads[k] as nat, fat.len());
    assert forall|l: int| 0 <= l < h2.len() implies #[trigger] chain(new, h2[l]) == chain(fat, h2[l]) by {
        let l2 = if l < k { l } else { l + 1 };
        assert(h2[l] == heads[l2]);
        assert(chain(fat, heads[l2]) is Ok);
        let c = chain(fat, heads[l2])->Ok_0;
        assert forall|j: int| 0 <= j < fat.len() && fat[j] == FatItem::BadCluster implies #[trigger] new[j] == fat[j] by {
            if s.contains(j as usize) {
                let m = choose|m: int| 0 <= m < s.len() && s[m] == j as usize;
                assert(in_use(fat[s[m] as int]));
            }
        }
        assert forall|m: int| 0 <= m < c.len() implies #[trigger] new[c[m] as int] == fat[c[m] as int] by {
            lemma_chain_blocks(fat, heads[l2] as nat, fat.len());
            assert(c.contains(c[m]));
            assert(!s.contains(c[m]));
        }
        lemma_chain_frame(fat, new, heads[l2] as nat, fat.len());
    }
    assert forall|a: int, b: int, x: usize|
        0 <= a < h2.len() && 0 <= b < h2.len() && a != b && #[trigger] chain(new, h2[a])->Ok_0.contains(x)
            implies !#[trigger] chain(new, h2[b])->Ok_0.contains(x) by {
        let a2 = if a < k { a } else { a + 1 };
        let b2 = if b < k { b } else { b + 1 };
        assert(h2[a] == heads[a2] && h2[b] == heads[b2]);
    }
    assert forall|i: int| 0 <= i < new.len() && in_use(#[trigger] new[i]) implies reach(new, h2).contains(i as usize) by {
        assert(!s.contains(i as usize));
        assert(new[i] == fat[i]);
        assert(reach(fat, heads).contains(i as usize));
        let l = choose|l: int| 0 <= l < heads.len() && #[trigger] chain(fat, heads[l])->Ok_0.contains(i as usize);
        assert(l != k);
        let l2 = if l < k { l } else { l - 1 };
        assert(h2[l2] == heads[l]);
        assert(chain(new, h2[l2])->Ok_0.contains(i as usize));
    }
}

/// A chain wired over increasing blocks walks back exactly those blocks.
pub proof fn lemma_linked_chain(old: Seq<FatItem>, new: Seq<FatItem>, s: Seq<usize>, k: int, fuel: nat)
    requires
        is_linked(old, new, s),
        increasing(s),
        forall|j: int| 0 <= j < s.len() ==> #[trigger] s[j] < new.len(),
        0 <= k < s.len(),
        fuel >= s.len() - k,
    ensures
        chain_from(new, s[k] as nat, fuel) == Ok::<Seq<usize>, usize>(s.subrange(k, s.len() as int)),
    decreases s.len() - k,
{
    if k < s.len() - 1 {
        lemma_linked_chain(old, new, s, k + 1, (fuel - 1) as nat);
        assert(new[s[k] as int] == FatItem::ClusterNo(s[k + 1]));
        assert(seq![s[k]] + s.subrange(k + 1, s.len() as int) =~= s.subrange(k, s.len() as int));
    } else {
        assert(s.subrange(k, s.len() as int) =~= seq![s[k]]);
    }
}

/// Walking a chain again after it was freed breaks down: the walk reaches
/// a block that is now free.
pub proof fn lemma_free_twice_fails(fat: Seq<FatItem>, freed: Seq<FatItem>, cur: nat, fuel: nat)
    requires
        fat.len() <= usize::MAX,
        chain_from(fat, cur, fuel) is Ok,
        is_freed(fat, freed, chain_from(fat, cur, fuel)->Ok_0),
    ensures
        chain_from(freed, cur, fuel) is Err,
    decreases fuel,
{
    let s = chain_from(fat, cur, fuel)->Ok_0;
    match fat[cur as int] {
        FatItem::BadCluster => {
            assert(!s.contains(cur as usize)) by {
                lemma_chain_blocks(fat, cur + 1, (fuel - 1) as nat);
                if s.contains(cur as usize) {
                    let k = choose|k: int| 0 <= k < s.len() && s[k] == cur as usize;
                    assert(in_use(fat[s[k] as int]));
                }
            }
            lemma_free_twice_fails(fat, freed, cur + 1, (fuel - 1) as nat);
        },
        _ => {
            assert(s[0] == cur as usize);
            assert(freed[cur as int] == FatItem::NotUsed);
        },
    }
}

} // verus!
