//! Lists of table ids: taking tables out of a list, and sorting a list by
//! the first keys of its tables.

use vstd::prelude::*;
use std::collections::HashSet;
use crate::key::{
    key_le, key_lt, lemma_key_le_transitive, lemma_key_trichotomy, KeyModel, KeyOrder,
};
use crate::lsm_storage::LsmStorageState;
use crate::table::SsTableModel;

verus! {

/// `ids` without the first occurrence of each member of `gone`.
pub open spec fn without_first(ids: Seq<usize>, gone: Set<usize>) -> Seq<usize>
    decreases ids.len(),
{
    if ids.len() == 0 {
        ids
    } else if gone.contains(ids.last()) && !ids.drop_last().contains(ids.last()) {
        without_first(ids.drop_last(), gone)
    } else {
        without_first(ids.drop_last(), gone).push(ids.last())
    }
}

/// The first keys of the tables `ids` never go down.
pub open spec fn sorted_by_first_key(tables: Map<usize, SsTableModel>, ids: Seq<usize>) -> bool {
    forall|i: int, j: int|
        0 <= i <= j < ids.len() ==> key_le(
            #[trigger] tables[ids[i]].first_key,
            #[trigger] tables[ids[j]].first_key,
        )
}

/// The test that a table has the first key `key`.
pub open spec fn with_first_key(tables: Map<usize, SsTableModel>, key: KeyModel) -> spec_fn(
    usize,
) -> bool {
    |id: usize| tables[id].first_key == key
}

/// `output` is `input` sorted by first key, tables with the same first key
/// staying in the order they were in.
pub open spec fn is_stable_sort(
    tables: Map<usize, SsTableModel>,
    input: Seq<usize>,
    output: Seq<usize>,
) -> bool {
    &&& sorted_by_first_key(tables, output)
    &&& output.to_multiset() == input.to_multiset()
    &&& forall|key: KeyModel|
        #[trigger] output.filter(with_first_key(tables, key)) == input.filter(
            with_first_key(tables, key),
        )
}

/// Putting a table into a sorted list, after the tables whose first key is
/// not above its own and before those whose first key is, keeps the list
/// sorted.
pub proof fn lemma_insert_keeps_sorted(
    tables: Map<usize, SsTableModel>,
    ids: Seq<usize>,
    p: int,
    id: usize,
)
    requires
        sorted_by_first_key(tables, ids),
        0 <= p <= ids.len(),
        p > 0 ==> key_le(tables[ids[p - 1]].first_key, tables[id].first_key),
        forall|j: int|
            p <= j < ids.len() ==> key_lt(tables[id].first_key, tables[ids[j]].first_key),
    ensures
        sorted_by_first_key(tables, ids.insert(p, id)),
{
    let out = ids.insert(p, id);
    let key = tables[id].first_key;
    lemma_key_trichotomy(key, key);
    assert forall|i: int, j: int| 0 <= i <= j < out.len() implies key_le(
        #[trigger] tables[out[i]].first_key,
        #[trigger] tables[out[j]].first_key,
    ) by {
        let a = tables[out[i]].first_key;
        let b = tables[out[j]].first_key;
        if i < p && j == p {
            assert(out[i] == ids[i]);
            assert(key_le(tables[ids[i]].first_key, tables[ids[p - 1]].first_key));
            lemma_key_le_transitive(a, tables[ids[p - 1]].first_key, key);
        } else if i < p && j > p {
            assert(out[i] == ids[i]);
            assert(out[j] == ids[j - 1]);
            assert(key_le(tables[ids[i]].first_key, tables[ids[j - 1]].first_key));
        } else if i < p && j < p {
            assert(out[i] == ids[i]);
            assert(out[j] == ids[j]);
        } else if i == p && j > p {
            assert(out[j] == ids[j - 1]);
            lemma_key_trichotomy(key, b);
        } else if i > p {
            assert(out[i] == ids[i - 1]);
            assert(out[j] == ids[j - 1]);
            assert(key_le(tables[ids[i - 1]].first_key, tables[ids[j - 1]].first_key));
        }
    }
}

/// Putting a table into a list before tables with other first keys only
/// adds it, at the end, to the tables of the list that have its first key.
pub proof fn lemma_insert_keeps_order(
    tables: Map<usize, SsTableModel>,
    ids: Seq<usize>,
    p: int,
    id: usize,
    key: KeyModel,
)
    requires
        0 <= p <= ids.len(),
        forall|j: int| p <= j < ids.len() ==> tables[ids[j]].first_key != tables[id].first_key,
    ensures
        ids.insert(p, id).filter(with_first_key(tables, key)) == ids.push(id).filter(
            with_first_key(tables, key),
        ),
{
    let pred = with_first_key(tables, key);
    let front = ids.subrange(0, p);
    let back = ids.subrange(p, ids.len() as int);
    assert(ids =~= front + back);
    assert(ids.push(id) =~= front + back.push(id));
    Seq::filter_distributes_over_add(front.push(id), back, pred);
    Seq::filter_distributes_over_add(front, back.push(id), pred);
    front.lemma_filter_push(id, pred);
    back.lemma_filter_push(id, pred);
    if pred(id) {
        assert(back.all(|x: usize| !pred(x)));
        back.lemma_all_neg_filter_empty(pred);
        assert(back.filter(pred) =~= Seq::<usize>::empty());
        assert(front.filter(pred).push(id) + back.filter(pred) =~= front.filter(pred)
            + back.filter(pred).push(id));
    }
}

/// From a list in which no table stands twice, exactly the members of `gone`
/// leave, and no table stands twice in what is left.
pub proof fn lemma_without_first(ids: Seq<usize>, gone: Set<usize>)
    requires
        ids.no_duplicates(),
    ensures
        without_first(ids, gone).no_duplicates(),
        forall|x: usize|
            #[trigger] without_first(ids, gone).contains(x) <==> ids.contains(x) && !gone.contains(
                x,
            ),
    decreases ids.len(),
{
    if ids.len() > 0 {
        let init = ids.drop_last();
        let last = ids.last();
        lemma_without_first(init, gone);
        let rest = without_first(init, gone);
        assert(!init.contains(last)) by {
            if init.contains(last) {
                let i = choose|i: int| 0 <= i < init.len() && init[i] == last;
                assert(ids[i] == ids[ids.len() - 1]);
            }
        }
        assert forall|x: usize| #[trigger]
            without_first(ids, gone).contains(x) <==> ids.contains(x) && !gone.contains(x) by {
            if ids.contains(x) {
                let i = choose|i: int| 0 <= i < ids.len() && ids[i] == x;
                if i < init.len() {
                    assert(init[i] == x);
                }
            }
            if init.contains(x) {
                let i = choose|i: int| 0 <= i < init.len() && init[i] == x;
                assert(ids[i] == x);
            }
            assert(ids[ids.len() - 1] == last);
            if !gone.contains(last) {
                let kept = rest.push(last);
                if kept.contains(x) {
                    let i = choose|i: int| 0 <= i < kept.len() && kept[i] == x;
                    if i < rest.len() {
                        assert(rest[i] == x);
                    }
                }
                if rest.contains(x) {
                    let i = choose|i: int| 0 <= i < rest.len() && rest[i] == x;
                    assert(kept[i] == x);
                }
                assert(kept[rest.len() as int] == last);
            }
        }
        if !gone.contains(last) {
            assert(!rest.contains(last));
        }
    }
}

/// Two lists with the same members, each as often, are as long as each other
/// and hold the same tables, and where no table stands twice in one, none
/// does in the other.
pub proof fn lemma_same_members(a: Seq<usize>, b: Seq<usize>)
    requires
        a.to_multiset() == b.to_multiset(),
    ensures
        a.len() == b.len(),
        forall|x: usize| a.contains(x) <==> b.contains(x),
        a.no_duplicates() ==> b.no_duplicates(),
{
    vstd::seq_lib::to_multiset_len(a);
    vstd::seq_lib::to_multiset_len(b);
    assert forall|x: usize| a.contains(x) <==> b.contains(x) by {
        vstd::seq_lib::to_multiset_contains(a, x);
        vstd::seq_lib::to_multiset_contains(b, x);
    }
    if a.no_duplicates() {
        a.lemma_multiset_has_no_duplicates();
        b.lemma_multiset_has_no_duplicates_conv();
    }
}

/// Sorting arrives at one list only: two stable sorts of a list are the same.
pub proof fn lemma_stable_sort_unique(
    tables: Map<usize, SsTableModel>,
    input: Seq<usize>,
    a: Seq<usize>,
    b: Seq<usize>,
)
    requires
        is_stable_sort(tables, input, a),
        is_stable_sort(tables, input, b),
    ensures
        a == b,
    decreases a.len(),
{
    lemma_same_members(a, input);
    lemma_same_members(input, b);
    if a.len() > 0 {
        let x = a[0];
        let y = b[0];
        let kx = tables[x].first_key;
        let ky = tables[y].first_key;
        // Each list begins with a table whose first key is the least.
        assert(a.contains(y) && b.contains(x)) by {
            assert(a[0] == x && b[0] == y);
        }
        let i = choose|i: int| 0 <= i < a.len() && a[i] == y;
        let j = choose|j: int| 0 <= j < b.len() && b[j] == x;
        assert(key_le(tables[a[0]].first_key, tables[a[i]].first_key));
        assert(key_le(tables[b[0]].first_key, tables[b[j]].first_key));
        lemma_key_trichotomy(kx, ky);
        assert(kx == ky);
        // So each begins with the first table that has this key.
        let pred = with_first_key(tables, kx);
        let a1 = a.subrange(1, a.len() as int);
        let b1 = b.subrange(1, b.len() as int);
        assert(a =~= seq![x] + a1);
        assert(b =~= seq![y] + b1);
        a1.lemma_filter_prepend(x, pred);
        b1.lemma_filter_prepend(y, pred);
        assert(a.filter(pred) == b.filter(pred));
        assert((seq![x] + a1.filter(pred))[0] == (seq![y] + b1.filter(pred))[0]);
        assert(x == y);
        // What follows is a stable sort of one list, too.
        assert forall|key: KeyModel| #[trigger]
            a1.filter(with_first_key(tables, key)) == b1.filter(with_first_key(tables, key)) by {
            let p = with_first_key(tables, key);
            a1.lemma_filter_prepend(x, p);
            b1.lemma_filter_prepend(y, p);
            assert(a.filter(p) == b.filter(p));
            if p(x) {
                assert((seq![x] + a1.filter(p)).skip(1) =~= a1.filter(p));
                assert((seq![y] + b1.filter(p)).skip(1) =~= b1.filter(p));
            } else {
                assert(Seq::<usize>::empty() + a1.filter(p) =~= a1.filter(p));
                assert(Seq::<usize>::empty() + b1.filter(p) =~= b1.filter(p));
            }
        }
        assert(sorted_by_first_key(tables, a1)) by {
            assert forall|i: int, j: int| 0 <= i <= j < a1.len() implies key_le(
                #[trigger] tables[a1[i]].first_key,
                #[trigger] tables[a1[j]].first_key,
            ) by {
                assert(key_le(tables[a[i + 1]].first_key, tables[a[j + 1]].first_key));
            }
        }
        assert(sorted_by_first_key(tables, b1)) by {
            assert forall|i: int, j: int| 0 <= i <= j < b1.len() implies key_le(
                #[trigger] tables[b1[i]].first_key,
                #[trigger] tables[b1[j]].first_key,
            ) by {
                assert(key_le(tables[b[i + 1]].first_key, tables[b[j + 1]].first_key));
            }
        }
        assert(a1.to_multiset() == b1.to_multiset()) by {
            vstd::seq_lib::to_multiset_remove(a, 0);
            vstd::seq_lib::to_multiset_remove(b, 0);
            assert(a.remove(0) =~= a1);
            assert(b.remove(0) =~= b1);
        }
        assert(is_stable_sort(tables, a1, a1));
        assert(is_stable_sort(tables, a1, b1));
        lemma_stable_sort_unique(tables, a1, a1, b1);
    } else {
        assert(a =~= b);
    }
}

/// Whether `id` is one of `ids`.
pub fn contains_id(ids: &[usize], id: usize) -> (found: bool)
    ensures
        found == ids@.contains(id),
{
    let mut i: usize = 0;
    while i < ids.len()
        invariant
            i <= ids@.len(),
            forall|j: int| 0 <= j < i ==> ids@[j] != id,
        decreases ids@.len() - i,
    {
        if ids[i] == id {
            return true;
        }
        i += 1;
    }
    false
}

/// Whether each of `ids` is one of `among`.
pub fn all_among(ids: &[usize], among: &[usize]) -> (all: bool)
    ensures
        all == forall|i: int| 0 <= i < ids@.len() ==> among@.contains(#[trigger] ids@[i]),
{
    let mut i: usize = 0;
    while i < ids.len()
        invariant
            i <= ids@.len(),
            forall|j: int| 0 <= j < i ==> among@.contains(#[trigger] ids@[j]),
        decreases ids@.len() - i,
    {
        if !contains_id(among, ids[i]) {
            return false;
        }
        i += 1;
    }
    true
}

/// Whether the layout knows each of the tables `ids`.
pub fn all_known(snapshot: &LsmStorageState, ids: &[usize]) -> (all: bool)
    ensures
        all == forall|i: int|
            0 <= i < ids@.len() ==> snapshot@.tables.contains_key(#[trigger] ids@[i]),
{
    let mut i: usize = 0;
    while i < ids.len()
        invariant
            i <= ids@.len(),
            forall|j: int| 0 <= j < i ==> snapshot@.tables.contains_key(#[trigger] ids@[j]),
        decreases ids@.len() - i,
    {
        if !snapshot.knows(ids[i]) {
            return false;
        }
        i += 1;
    }
    true
}

/// The tables `ids` without the first occurrence of each of `gone`.
pub fn remove_ids(ids: &Vec<usize>, gone: &Vec<usize>) -> (rest: Vec<usize>)
    ensures
        rest@ == without_first(ids@, gone@.to_set()),
{
    broadcast use vstd::std_specs::hash::group_hash_axioms;

    let mut gone_set: HashSet<usize> = HashSet::new();
    let mut k: usize = 0;
    while k < gone.len()
        invariant
            k <= gone@.len(),
            gone_set@ == gone@.take(k as int).to_set(),
        decreases gone@.len() - k,
    {
        proof {
            gone@.lemma_take_succ_push(k as int);
            gone@.take(k as int).lemma_push_to_set_commute(gone@[k as int]);
        }
        gone_set.insert(gone[k]);
        k += 1;
    }
    proof {
        assert(gone@.take(k as int) =~= gone@);
    }
    let mut rest: Vec<usize> = Vec::new();
    let mut i: usize = 0;
    while i < ids.len()
        invariant
            i <= ids@.len(),
            rest@ == without_first(ids@.take(i as int), gone@.to_set()),
            gone_set@ == gone@.to_set().difference(ids@.take(i as int).to_set()),
        decreases ids@.len() - i,
    {
        proof {
            ids@.lemma_take_succ_push(i as int);
            ids@.take(i as int).lemma_push_to_set_commute(ids@[i as int]);
            assert(ids@.take(i + 1).drop_last() =~= ids@.take(i as int));
        }
        if !gone_set.remove(&ids[i]) {
            rest.push(ids[i]);
        }
        proof {
            assert(gone_set@ =~= gone@.to_set().difference(ids@.take(i + 1).to_set()));
        }
        i += 1;
    }
    proof {
        assert(ids@.take(i as int) =~= ids@);
    }
    rest
}

/// The tables `ids` sorted by first key; tables with the same first key stay
/// in the order they were in. The layout must know each table.
pub fn sort_by_first_key(snapshot: &LsmStorageState, ids: &Vec<usize>) -> (sorted: Vec<usize>)
    requires
        forall|i: int| 0 <= i < ids@.len() ==> snapshot@.tables.contains_key(#[trigger] ids@[i]),
    ensures
        is_stable_sort(snapshot@.tables, ids@, sorted@),
{
    let ghost tables = snapshot@.tables;
    let mut sorted: Vec<usize> = Vec::new();
    let mut i: usize = 0;
    proof {
        assert(ids@.take(0) =~= Seq::<usize>::empty());
        assert(sorted@.to_multiset() =~= ids@.take(0).to_multiset());
    }
    while i < ids.len()
        invariant
            tables == snapshot@.tables,
            i <= ids@.len(),
            forall|i: int| 0 <= i < ids@.len() ==> tables.contains_key(#[trigger] ids@[i]),
            forall|j: int| 0 <= j < sorted@.len() ==> tables.contains_key(#[trigger] sorted@[j]),
            is_stable_sort(tables, ids@.take(i as int), sorted@),
        decreases ids@.len() - i,
    {
        let id = ids[i];
        let key = snapshot.table(id).first_key();
        let mut p: usize = sorted.len();
        loop
            invariant
                tables == snapshot@.tables,
                p <= sorted@.len(),
                tables.contains_key(id),
                key@ == tables[id].first_key,
                forall|j: int|
                    0 <= j < sorted@.len() ==> tables.contains_key(#[trigger] sorted@[j]),
                forall|j: int|
                    p <= j < sorted@.len() ==> key_lt(
                        key@,
                        #[trigger] tables[sorted@[j]].first_key,
                    ),
            ensures
                p > 0 ==> key_le(tables[sorted@[p - 1]].first_key, key@),
            decreases p,
        {
            if p == 0 {
                break ;
            }
            if snapshot.table(sorted[p - 1]).first_key().compare(&key) != KeyOrder::Greater {
                break ;
            }
            p -= 1;
        }
        proof {
            let before = sorted@;
            let after = before.insert(p as int, id);
            lemma_insert_keeps_sorted(tables, before, p as int, id);
            vstd::seq_lib::to_multiset_insert(before, p as int, id);
            ids@.lemma_take_succ_push(i as int);
            vstd::seq_lib::to_multiset_build(ids@.take(i as int), id);
            assert forall|k: KeyModel| #[trigger]
                after.filter(with_first_key(tables, k)) == ids@.take(i + 1).filter(
                    with_first_key(tables, k),
                ) by {
                assert forall|j: int| p <= j < before.len() implies tables[before[j]].first_key
                    != tables[id].first_key by {
                    lemma_key_trichotomy(key@, tables[before[j]].first_key);
                }
                lemma_insert_keeps_order(tables, before, p as int, id, k);
                before.lemma_filter_push(id, with_first_key(tables, k));
                ids@.take(i as int).lemma_filter_push(id, with_first_key(tables, k));
                assert(before.filter(with_first_key(tables, k)) == ids@.take(i as int).filter(
                    with_first_key(tables, k),
                ));
            }
            assert forall|j: int| 0 <= j < after.len() implies tables.contains_key(
                #[trigger] after[j],
            ) by {
                if j < p {
                    assert(after[j] == before[j]);
                } else if j > p {
                    assert(after[j] == before[j - 1]);
                }
            }
        }
        sorted.insert(p, id);
        i += 1;
    }
    proof {
        assert(ids@.take(i as int) =~= ids@);
    }
    sorted
}

} // verus!
