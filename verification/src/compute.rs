use vstd::prelude::*;

verus! {

use crate::cache::SizeCache;
use crate::records::{SizeRecord, SizeUpdate};

/// One directory of a snapshot of the tree to be measured: its path key,
/// the byte sizes of the files directly inside it, and its
/// subdirectories.  An unreadable directory appears with no files and no
/// subdirectories.
pub struct DirTree {
    pub path: String,
    pub file_sizes: Vec<u64>,
    pub subdirs: Vec<SubTree>,
}

/// A subdirectory of a snapshot.  A branch whose traversal failed from an
/// internal fault is recorded as `Faulted` with its path: it contributes
/// nothing to any total, but observers still hear a zeroed event for it.
pub enum SubTree {
    Ready(DirTree),
    Faulted(String),
}

/// The sum of a sequence of byte sizes.
pub open spec fn sum_sizes(s: Seq<u64>) -> int
    decreases s.len(),
{
    if s.len() == 0 {
        0
    } else {
        sum_sizes(s.drop_last()) + s.last()
    }
}

/// The true recursive byte size of a directory: its direct files plus
/// every ready subdirectory, with faulted branches counting as zero.
pub open spec fn tree_size(t: DirTree) -> int
    decreases t, t.subdirs@.len() as int + 1,
{
    sum_sizes(t.file_sizes@) + subs_size(t, t.subdirs@.len() as int)
}

/// The byte size contributed by the first `n` subdirectories of `t`.
pub open spec fn subs_size(t: DirTree, n: int) -> int
    decreases t, n,
    via subs_size_decreases
{
    if n <= 0 || n > t.subdirs@.len() {
        0
    } else {
        subs_size(t, n - 1) + match t.subdirs@[n - 1] {
            SubTree::Ready(d) => tree_size(d),
            SubTree::Faulted(_) => 0,
        }
    }
}

/// A ready subdirectory is structurally below its parent, so recursion
/// into it terminates.
proof fn lemma_subtree_decreases(t: DirTree, i: int)
    requires
        0 <= i < t.subdirs@.len(),
    ensures
        t.subdirs@[i] is Ready ==> decreases_to!(t => t.subdirs@[i]->Ready_0),
{
    assert(decreases_to!(t => t.subdirs));
    assert(decreases_to!(t.subdirs => t.subdirs@));
    assert(decreases_to!(t.subdirs@ => t.subdirs@[i]));
    if t.subdirs@[i] is Ready {
        assert(decreases_to!(t.subdirs@[i] => t.subdirs@[i]->Ready_0));
    }
}

#[via_fn]
proof fn subs_size_decreases(t: DirTree, n: int) {
    if 0 < n <= t.subdirs@.len() {
        lemma_subtree_decreases(t, n - 1);
    }
}

/// The true recursive file count of a directory.
pub open spec fn tree_count(t: DirTree) -> int
    decreases t, t.subdirs@.len() as int + 1,
{
    t.file_sizes@.len() + subs_count(t, t.subdirs@.len() as int)
}

/// The file count contributed by the first `n` subdirectories of `t`.
pub open spec fn subs_count(t: DirTree, n: int) -> int
    decreases t, n,
    via subs_count_decreases
{
    if n <= 0 || n > t.subdirs@.len() {
        0
    } else {
        subs_count(t, n - 1) + match t.subdirs@[n - 1] {
            SubTree::Ready(d) => tree_count(d),
            SubTree::Faulted(_) => 0,
        }
    }
}

#[via_fn]
proof fn subs_count_decreases(t: DirTree, n: int) {
    if 0 < n <= t.subdirs@.len() {
        lemma_subtree_decreases(t, n - 1);
    }
}

/// `truth` is a table of true aggregates for every directory of the
/// snapshot: each ready directory's path is present and maps to exactly
/// its recursive size and file count.  Such a table exists for every
/// snapshot taken from a real tree, where paths are distinct.
pub open spec fn truth_for(t: DirTree, truth: Map<Seq<char>, SizeRecord>) -> bool
    decreases t, t.subdirs@.len() as int + 1,
{
    &&& truth.contains_key(t.path@)
    &&& truth[t.path@].size == tree_size(t)
    &&& truth[t.path@].file_count == tree_count(t)
    &&& subs_truth(t, t.subdirs@.len() as int, truth)
}

/// `truth_for` over the first `n` subdirectories of `t`.
pub open spec fn subs_truth(t: DirTree, n: int, truth: Map<Seq<char>, SizeRecord>) -> bool
    decreases t, n,
    via subs_truth_decreases
{
    n <= 0 || n > t.subdirs@.len() || (subs_truth(t, n - 1, truth) && match t.subdirs@[n - 1] {
        SubTree::Ready(d) => truth_for(d, truth),
        SubTree::Faulted(_) => true,
    })
}

#[via_fn]
proof fn subs_truth_decreases(t: DirTree, n: int, truth: Map<Seq<char>, SizeRecord>) {
    if 0 < n <= t.subdirs@.len() {
        lemma_subtree_decreases(t, n - 1);
    }
}

/// Every cached aggregate agrees with the table of true aggregates: the
/// cache never holds a wrong answer.
pub open spec fn cache_respects(
    c: Map<Seq<char>, SizeRecord>,
    truth: Map<Seq<char>, SizeRecord>,
) -> bool {
    forall|k: Seq<char>| #[trigger] c.contains_key(k) ==> truth.contains_key(k) && truth[k] == c[k]
}

/// Somewhere at or after position `from`, the event list reports `p`
/// with a zeroed aggregate.
pub open spec fn has_zero_event(es: Seq<SizeUpdate>, from: int, p: Seq<char>) -> bool {
    exists|j: int|
        from <= j < es.len() && (#[trigger] es[j]).path@ == p && es[j].size == 0
            && es[j].file_count == 0
}

proof fn lemma_sum_sizes_nonneg(s: Seq<u64>)
    ensures
        sum_sizes(s) >= 0,
    decreases s.len(),
{
    if s.len() > 0 {
        lemma_sum_sizes_nonneg(s.drop_last());
    }
}

proof fn lemma_sum_take_le(s: Seq<u64>, i: int)
    requires
        0 <= i <= s.len(),
    ensures
        sum_sizes(s.take(i)) <= sum_sizes(s),
    decreases s.len(),
{
    if i == s.len() {
        assert(s.take(i) =~= s);
    } else {
        assert(s.drop_last().take(i) =~= s.take(i));
        lemma_sum_take_le(s.drop_last(), i);
    }
}

proof fn lemma_tree_nonneg(t: DirTree)
    ensures
        tree_size(t) >= 0,
        tree_count(t) >= 0,
    decreases t, t.subdirs@.len() as int + 1,
{
    lemma_sum_sizes_nonneg(t.file_sizes@);
    lemma_subs_nonneg(t, t.subdirs@.len() as int);
}

proof fn lemma_subs_nonneg(t: DirTree, n: int)
    ensures
        subs_size(t, n) >= 0,
        subs_count(t, n) >= 0,
    decreases t, n,
{
    if n > 0 {
        lemma_subs_nonneg(t, n - 1);
        if n <= t.subdirs@.len() {
            lemma_subtree_decreases(t, n - 1);
            match t.subdirs@[n - 1] {
                SubTree::Ready(d) => lemma_tree_nonneg(d),
                SubTree::Faulted(_) => (),
            }
        }
    }
}

proof fn lemma_subs_mono(t: DirTree, i: int, n: int)
    requires
        0 <= i <= n <= t.subdirs@.len(),
    ensures
        subs_size(t, i) <= subs_size(t, n),
        subs_count(t, i) <= subs_count(t, n),
    decreases n - i,
{
    if i < n {
        lemma_subs_mono(t, i + 1, n);
        lemma_subtree_decreases(t, i);
        match t.subdirs@[i] {
            SubTree::Ready(d) => lemma_tree_nonneg(d),
            SubTree::Faulted(_) => (),
        }
    }
}

proof fn lemma_subs_truth_index(t: DirTree, n: int, truth: Map<Seq<char>, SizeRecord>, i: int)
    requires
        subs_truth(t, n, truth),
        0 <= i < n,
        n <= t.subdirs@.len(),
    ensures
        t.subdirs@[i] is Ready ==> truth_for(t.subdirs@[i]->Ready_0, truth),
    decreases n,
{
    if i < n - 1 {
        lemma_subs_truth_index(t, n - 1, truth, i);
    }
}

proof fn lemma_prefix_trans<A>(a: Seq<A>, b: Seq<A>, c: Seq<A>)
    requires
        a.len() <= b.len(),
        b.len() <= c.len(),
        b.subrange(0, a.len() as int) == a,
        c.subrange(0, b.len() as int) == b,
    ensures
        c.subrange(0, a.len() as int) == a,
{
    assert forall|i: int| 0 <= i < a.len() implies c[i] == a[i] by {
        assert(b[i] == b.subrange(0, a.len() as int)[i]);
        assert(c[i] == c.subrange(0, b.len() as int)[i]);
    }
    assert(c.subrange(0, a.len() as int) =~= a);
}

proof fn lemma_zero_event_extend(es1: Seq<SizeUpdate>, es2: Seq<SizeUpdate>, from: int, p: Seq<char>)
    requires
        0 <= from,
        has_zero_event(es1, from, p),
        es1.len() <= es2.len(),
        es2.subrange(0, es1.len() as int) == es1,
    ensures
        has_zero_event(es2, from, p),
{
    let j = choose|j: int|
        from <= j < es1.len() && (#[trigger] es1[j]).path@ == p && es1[j].size == 0
            && es1[j].file_count == 0;
    assert(es2.subrange(0, es1.len() as int)[j] == es2[j]);
    assert(from <= j < es2.len() && es2[j].path@ == p && es2[j].size == 0 && es2[j].file_count
        == 0);
}

/// Computes the recursive aggregate of one directory of a snapshot,
/// bottom-up.  A cache hit short-circuits the whole walk with the cached
/// aggregate and emits nothing.  Otherwise every subdirectory is resolved
/// first, each resolved directory's aggregate is written to the cache and
/// reported as an event, faulted branches contribute zero and are
/// reported with a zeroed event, and the directory's own event comes
/// last, strictly after every descendant's.
pub fn compute_dir_size_recursive(
    tree: &DirTree,
    cache: &mut SizeCache,
    events: &mut Vec<SizeUpdate>,
) -> (r: SizeRecord)
    requires
        exists|truth: Map<Seq<char>, SizeRecord>|
            #[trigger] truth_for(*tree, truth) && cache_respects(old(cache)@, truth),
    ensures
        r.size == tree_size(*tree),
        r.file_count == tree_count(*tree),
        final(cache)@.contains_key(tree.path@),
        final(cache)@[tree.path@] == r,
        forall|k: Seq<char>| #[trigger]
            old(cache)@.contains_key(k) ==> final(cache)@.contains_key(k) && final(cache)@[k]
                == old(cache)@[k],
        forall|truth: Map<Seq<char>, SizeRecord>|
            #[trigger] truth_for(*tree, truth) && cache_respects(old(cache)@, truth)
                ==> cache_respects(final(cache)@, truth),
        final(events)@.len() >= old(events)@.len(),
        final(events)@.subrange(0, old(events)@.len() as int) == old(events)@,
        old(cache)@.contains_key(tree.path@) ==> final(cache)@ == old(cache)@ && final(events)@
            == old(events)@,
        !old(cache)@.contains_key(tree.path@) ==> final(events)@.len() > old(events)@.len()
            && final(events)@.last().path@ == tree.path@ && final(events)@.last().size == r.size
            && final(events)@.last().file_count == r.file_count,
        !old(cache)@.contains_key(tree.path@) ==> forall|i: int|
            0 <= i < tree.subdirs@.len() && (#[trigger] tree.subdirs@[i]) is Faulted
                ==> has_zero_event(
                final(events)@,
                old(events)@.len() as int,
                tree.subdirs@[i]->Faulted_0@,
            ),
    decreases *tree,
{
    let ghost truth0 = choose|truth: Map<Seq<char>, SizeRecord>|
        #[trigger] truth_for(*tree, truth) && cache_respects(old(cache)@, truth);
    if let Some(rec) = cache.get(tree.path.as_str()) {
        proof {
            lemma_tree_nonneg(*tree);
        }
        return rec;
    }
    proof {
        lemma_sum_sizes_nonneg(tree.file_sizes@);
        lemma_subs_nonneg(*tree, tree.subdirs@.len() as int);
    }

    let ghost s = tree.file_sizes@;
    let mut size: u64 = 0;
    let mut i: usize = 0;
    while i < tree.file_sizes.len()
        invariant
            i <= s.len(),
            s == tree.file_sizes@,
            size as int == sum_sizes(s.take(i as int)),
            sum_sizes(s) + subs_size(*tree, tree.subdirs@.len() as int) == tree_size(*tree),
            subs_size(*tree, tree.subdirs@.len() as int) >= 0,
            tree_size(*tree) <= u64::MAX,
        decreases s.len() - i,
    {
        proof {
            assert(s.take(i + 1).drop_last() =~= s.take(i as int));
            assert(s.take(i + 1).last() == s[i as int]);
            lemma_sum_take_le(s, i + 1);
        }
        size = size + tree.file_sizes[i];
        i += 1;
    }
    proof {
        assert(s.take(s.len() as int) =~= s);
    }
    let mut count: u64 = tree.file_sizes.len() as u64;
    proof {
        lemma_subs_nonneg(*tree, tree.subdirs@.len() as int);
        assert(tree_count(*tree) <= u64::MAX);
    }

    let ghost n: int = tree.subdirs@.len() as int;
    let mut j: usize = 0;
    while j < tree.subdirs.len()
        invariant
            j <= n,
            n == tree.subdirs@.len(),
            s == tree.file_sizes@,
            truth_for(*tree, truth0),
            cache_respects(old(cache)@, truth0),
            cache_respects(cache@, truth0),
            !old(cache)@.contains_key(tree.path@),
            size as int == sum_sizes(s) + subs_size(*tree, j as int),
            count as int == s.len() + subs_count(*tree, j as int),
            tree_size(*tree) <= u64::MAX,
            tree_count(*tree) <= u64::MAX,
            sum_sizes(s) + subs_size(*tree, n) == tree_size(*tree),
            s.len() + subs_count(*tree, n) == tree_count(*tree),
            forall|k: Seq<char>| #[trigger]
                old(cache)@.contains_key(k) ==> cache@.contains_key(k) && cache@[k]
                    == old(cache)@[k],
            forall|truth: Map<Seq<char>, SizeRecord>|
                #[trigger] truth_for(*tree, truth) && cache_respects(old(cache)@, truth)
                    ==> cache_respects(cache@, truth),
            events@.len() >= old(events)@.len(),
            events@.subrange(0, old(events)@.len() as int) == old(events)@,
            forall|i2: int|
                0 <= i2 < j && (#[trigger] tree.subdirs@[i2]) is Faulted ==> has_zero_event(
                    events@,
                    old(events)@.len() as int,
                    tree.subdirs@[i2]->Faulted_0@,
                ),
        decreases n - j,
    {
        let ghost events_before = events@;
        let ghost cache_before = cache@;
        let sub = &tree.subdirs[j];
        match sub {
            SubTree::Ready(d) => {
                proof {
                    lemma_subs_truth_index(*tree, n, truth0, j as int);
                    assert(truth_for(*d, truth0) && cache_respects(cache@, truth0));
                }
                let rec = compute_dir_size_recursive(d, cache, events);
                proof {
                    lemma_subs_mono(*tree, j + 1, n);
                    lemma_sum_sizes_nonneg(s);
                    lemma_prefix_trans(old(events)@, events_before, events@);
                    assert forall|truth: Map<Seq<char>, SizeRecord>|
                        #[trigger] truth_for(*tree, truth) && cache_respects(old(cache)@, truth)
                            implies cache_respects(cache@, truth) by {
                        assert(cache_respects(cache_before, truth));
                        lemma_subs_truth_index(*tree, n, truth, j as int);
                        assert(truth_for(*d, truth));
                    }
                    assert forall|i2: int|
                        0 <= i2 < j && (#[trigger] tree.subdirs@[i2]) is Faulted
                            implies has_zero_event(
                        events@,
                        old(events)@.len() as int,
                        tree.subdirs@[i2]->Faulted_0@,
                    ) by {
                        lemma_zero_event_extend(
                            events_before,
                            events@,
                            old(events)@.len() as int,
                            tree.subdirs@[i2]->Faulted_0@,
                        );
                    }
                }
                size = size + rec.size;
                count = count + rec.file_count;
            },
            SubTree::Faulted(p) => {
                events.push(SizeUpdate { path: p.clone(), size: 0, file_count: 0 });
                proof {
                    assert(events@.subrange(0, events_before.len() as int) =~= events_before);
                    assert(events@.subrange(0, old(events)@.len() as int) =~= events_before
                        .subrange(0, old(events)@.len() as int));
                    assert(events@[events@.len() - 1].path@ == tree.subdirs@[j as int]->Faulted_0@);
                    assert forall|i2: int|
                        0 <= i2 < j + 1 && (#[trigger] tree.subdirs@[i2]) is Faulted
                            implies has_zero_event(
                        events@,
                        old(events)@.len() as int,
                        tree.subdirs@[i2]->Faulted_0@,
                    ) by {
                        if i2 < j {
                            lemma_zero_event_extend(
                                events_before,
                                events@,
                                old(events)@.len() as int,
                                tree.subdirs@[i2]->Faulted_0@,
                            );
                        }
                    }
                }
            },
        }
        j += 1;
    }

    let rec = SizeRecord { size, file_count: count };
    let ghost cache_done = cache@;
    let ghost events_done = events@;
    cache.insert(tree.path.clone(), rec);
    events.push(SizeUpdate { path: tree.path.clone(), size, file_count: count });
    proof {
        assert(events@.subrange(0, events_done.len() as int) =~= events_done);
        assert(events@.subrange(0, old(events)@.len() as int) =~= events_done.subrange(
            0,
            old(events)@.len() as int,
        ));
        assert forall|truth: Map<Seq<char>, SizeRecord>|
            #[trigger] truth_for(*tree, truth) && cache_respects(old(cache)@, truth)
                implies cache_respects(cache@, truth) by {
            assert(cache_respects(cache_done, truth));
            assert(truth[tree.path@] == rec);
        }
        assert forall|i2: int|
            0 <= i2 < n && (#[trigger] tree.subdirs@[i2]) is Faulted implies has_zero_event(
            events@,
            old(events)@.len() as int,
            tree.subdirs@[i2]->Faulted_0@,
        ) by {
            lemma_zero_event_extend(
                events_done,
                events@,
                old(events)@.len() as int,
                tree.subdirs@[i2]->Faulted_0@,
            );
        }
    }
    rec
}

/// The recursive size of a directory decomposes into the sizes of its
/// direct files plus the recursive sizes of its ready subdirectories,
/// faulted branches contributing zero; file counts decompose the same
/// way.  This is the shape of the aggregate that
/// `compute_dir_size_recursive` returns.
pub proof fn lemma_tree_aggregate_decomposition(t: DirTree)
    ensures
        tree_size(t) == sum_sizes(t.file_sizes@) + subs_size(t, t.subdirs@.len() as int),
        tree_count(t) == t.file_sizes@.len() + subs_count(t, t.subdirs@.len() as int),
        forall|i: int|
            0 <= i < t.subdirs@.len() ==> #[trigger] subs_size(t, i + 1) == subs_size(t, i)
                + match t.subdirs@[i] {
                SubTree::Ready(d) => tree_size(d),
                SubTree::Faulted(_) => 0,
            },
{
}

/// A record that `t` itself or one of its ready descendants answers for
/// path `p`.
pub open spec fn tree_has_record(t: DirTree, p: Seq<char>, r: SizeRecord) -> bool
    decreases t, t.subdirs@.len() as int + 1,
{
    (t.path@ == p && r.size == tree_size(t) && r.file_count == tree_count(t)) || subs_has_record(
        t,
        t.subdirs@.len() as int,
        p,
        r,
    )
}

/// `tree_has_record` over the first `n` subdirectories of `t`.
pub open spec fn subs_has_record(t: DirTree, n: int, p: Seq<char>, r: SizeRecord) -> bool
    decreases t, n,
    via subs_has_record_decreases
{
    if n <= 0 || n > t.subdirs@.len() {
        false
    } else {
        subs_has_record(t, n - 1, p, r) || match t.subdirs@[n - 1] {
            SubTree::Ready(d) => tree_has_record(d, p, r),
            SubTree::Faulted(_) => false,
        }
    }
}

#[via_fn]
proof fn subs_has_record_decreases(t: DirTree, n: int, p: Seq<char>, r: SizeRecord) {
    if 0 < n <= t.subdirs@.len() {
        lemma_subtree_decreases(t, n - 1);
    }
}

/// No two directories of the snapshot answer for the same path with
/// different aggregates.  On a snapshot of a real tree, where every
/// directory's path is distinct, this holds trivially.
pub open spec fn unambiguous(t: DirTree) -> bool {
    forall|p: Seq<char>, r1: SizeRecord, r2: SizeRecord|
        #[trigger] tree_has_record(t, p, r1) && #[trigger] tree_has_record(t, p, r2) ==> r1 == r2
}

/// Every directory's aggregates fit the 64-bit fields they are stored in.
pub open spec fn tree_bounded(t: DirTree) -> bool
    decreases t, t.subdirs@.len() as int + 1,
{
    &&& 0 <= tree_size(t) <= u64::MAX
    &&& 0 <= tree_count(t) <= u64::MAX
    &&& subs_bounded(t, t.subdirs@.len() as int)
}

/// `tree_bounded` over the first `n` subdirectories of `t`.
pub open spec fn subs_bounded(t: DirTree, n: int) -> bool
    decreases t, n,
    via subs_bounded_decreases
{
    n <= 0 || n > t.subdirs@.len() || (subs_bounded(t, n - 1) && match t.subdirs@[n - 1] {
        SubTree::Ready(d) => tree_bounded(d),
        SubTree::Faulted(_) => true,
    })
}

#[via_fn]
proof fn subs_bounded_decreases(t: DirTree, n: int) {
    if 0 < n <= t.subdirs@.len() {
        lemma_subtree_decreases(t, n - 1);
    }
}

/// The table of every answer the snapshot gives: each path a directory
/// of the snapshot answers for, mapped to its aggregate.
pub open spec fn records_table(t: DirTree) -> Map<Seq<char>, SizeRecord> {
    Map::new(
        |p: Seq<char>| exists|r: SizeRecord| tree_has_record(t, p, r),
        |p: Seq<char>| choose|r: SizeRecord| tree_has_record(t, p, r),
    )
}

proof fn lemma_subs_has_mono(t: DirTree, i: int, n: int, p: Seq<char>, r: SizeRecord)
    requires
        0 <= i <= n <= t.subdirs@.len(),
        subs_has_record(t, i, p, r),
    ensures
        subs_has_record(t, n, p, r),
    decreases n - i,
{
    if i < n {
        lemma_subs_has_mono(t, i + 1, n, p, r);
    }
}

proof fn lemma_truth_for_from_table(t: DirTree, m: Map<Seq<char>, SizeRecord>)
    requires
        tree_bounded(t),
        forall|p: Seq<char>, r: SizeRecord| #[trigger]
            tree_has_record(t, p, r) ==> m.contains_key(p) && m[p] == r,
    ensures
        truth_for(t, m),
    decreases t, t.subdirs@.len() as int + 1,
{
    let rec = SizeRecord { size: tree_size(t) as u64, file_count: tree_count(t) as u64 };
    assert(tree_has_record(t, t.path@, rec));
    lemma_subs_truth_from_table(t, t.subdirs@.len() as int, m);
}

proof fn lemma_subs_truth_from_table(t: DirTree, n: int, m: Map<Seq<char>, SizeRecord>)
    requires
        0 <= n <= t.subdirs@.len(),
        subs_bounded(t, n),
        forall|p: Seq<char>, r: SizeRecord| #[trigger]
            tree_has_record(t, p, r) ==> m.contains_key(p) && m[p] == r,
    ensures
        subs_truth(t, n, m),
    decreases t, n,
{
    if n > 0 {
        lemma_subs_truth_from_table(t, n - 1, m);
        lemma_subtree_decreases(t, n - 1);
        match t.subdirs@[n - 1] {
            SubTree::Ready(d) => {
                assert forall|p: Seq<char>, r: SizeRecord| #[trigger]
                    tree_has_record(d, p, r) implies m.contains_key(p) && m[p] == r by {
                    assert(subs_has_record(t, n, p, r));
                    lemma_subs_has_mono(t, n, t.subdirs@.len() as int, p, r);
                    assert(tree_has_record(t, p, r));
                }
                lemma_truth_for_from_table(d, m);
            },
            SubTree::Faulted(_) => (),
        }
    }
}

/// Every unambiguous, bounded snapshot has a table of true aggregates
/// that an empty cache trivially respects: the recursive computation's
/// precondition is satisfiable for every snapshot of a real directory
/// tree, and with an empty cache its result is always the true aggregate.
pub proof fn lemma_truth_exists(t: DirTree)
    requires
        tree_bounded(t),
        unambiguous(t),
    ensures
        truth_for(t, records_table(t)),
        cache_respects(Map::empty(), records_table(t)),
{
    let m = records_table(t);
    assert forall|p: Seq<char>, r: SizeRecord| #[trigger]
        tree_has_record(t, p, r) implies m.contains_key(p) && m[p] == r by {
        assert(exists|r2: SizeRecord| tree_has_record(t, p, r2));
        let r2 = choose|r2: SizeRecord| tree_has_record(t, p, r2);
        assert(r2 == r);
    }
    lemma_truth_for_from_table(t, m);
}

/// Memoization is sound: whenever the cache already holds an entry for a
/// directory of a consistent snapshot, that entry is exactly the
/// directory's true aggregate, so a second computation may answer from
/// the cache alone, reading nothing and emitting nothing.
pub proof fn lemma_compute_idempotent(
    t: DirTree,
    c: Map<Seq<char>, SizeRecord>,
    truth: Map<Seq<char>, SizeRecord>,
)
    requires
        truth_for(t, truth),
        cache_respects(c, truth),
        c.contains_key(t.path@),
    ensures
        c[t.path@].size == tree_size(t),
        c[t.path@].file_count == tree_count(t),
{
}

} // verus!
