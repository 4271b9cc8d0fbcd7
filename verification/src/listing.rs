use vstd::prelude::*;
use vstd::string::*;

verus! {

use crate::cache::SizeCache;
use crate::order::{nodes_sorted, sort_nodes};
use crate::path_norm::{is_sep, normalize_path_string, spec_normalize};
use crate::progress::{begin_allowed, try_mark_in_progress, InProgressSet};
use crate::records::{EntryMeta, FileNode};

/// The listing node that one directory entry turns into, given the
/// current cache: files carry their own size and count for one file;
/// directories carry the cached aggregate if one exists, else an unknown
/// size and a zero count.
pub open spec fn node_for(e: EntryMeta, cache: Map<Seq<char>, crate::records::SizeRecord>) -> FileNode {
    if e.is_dir {
        if cache.contains_key(e.path@) {
            FileNode {
                name: e.name,
                path: e.path,
                size: Some(cache[e.path@].size),
                base_size: 0,
                is_dir: true,
                file_count: cache[e.path@].file_count,
                children: None,
            }
        } else {
            FileNode {
                name: e.name,
                path: e.path,
                size: None,
                base_size: 0,
                is_dir: true,
                file_count: 0,
                children: None,
            }
        }
    } else {
        FileNode {
            name: e.name,
            path: e.path,
            size: Some(e.len),
            base_size: e.len,
            is_dir: false,
            file_count: 1,
            children: None,
        }
    }
}

/// The listing nodes of a whole entry sequence.
pub open spec fn nodes_for(
    es: Seq<EntryMeta>,
    cache: Map<Seq<char>, crate::records::SizeRecord>,
) -> Seq<FileNode> {
    es.map_values(|e: EntryMeta| node_for(e, cache))
}

/// The sum of the sizes of the files directly in the listing: the base
/// size of the listed directory, known without any recursion.
pub open spec fn direct_total(es: Seq<EntryMeta>) -> int
    decreases es.len(),
{
    if es.len() == 0 {
        0
    } else {
        direct_total(es.drop_last()) + if es.last().is_dir {
            0
        } else {
            es.last().len as int
        }
    }
}

proof fn lemma_direct_total_nonneg(es: Seq<EntryMeta>)
    ensures
        direct_total(es) >= 0,
    decreases es.len(),
{
    if es.len() > 0 {
        lemma_direct_total_nonneg(es.drop_last());
    }
}

proof fn lemma_direct_total_take_le(es: Seq<EntryMeta>, i: int)
    requires
        0 <= i <= es.len(),
    ensures
        direct_total(es.take(i)) <= direct_total(es),
        direct_total(es.take(i)) >= 0,
    decreases es.len(),
{
    lemma_direct_total_nonneg(es.take(i));
    if i == es.len() {
        assert(es.take(i) =~= es);
    } else {
        assert(es.drop_last().take(i) =~= es.take(i));
        lemma_direct_total_take_le(es.drop_last(), i);
    }
}

/// The maximal run of non-separator characters at the end of a path.
pub open spec fn after_last_sep(s: Seq<char>) -> Seq<char>
    decreases s.len(),
{
    if s.len() == 0 {
        Seq::empty()
    } else if is_sep(s.last()) {
        Seq::empty()
    } else {
        after_last_sep(s.drop_last()).push(s.last())
    }
}

/// The display name of the listed directory: the last component of its
/// normalized path, or the whole path where no component follows the last
/// separator (the root, or an empty path).
pub open spec fn node_name(s: Seq<char>) -> Seq<char> {
    if after_last_sep(s).len() == 0 {
        s
    } else {
        after_last_sep(s)
    }
}

fn node_display_name(s: &str) -> (r: String)
    ensures
        r@ == node_name(s@),
{
    let n = s.unicode_len();
    let mut cut: usize = 0;
    let mut i: usize = 0;
    while i < n
        invariant
            cut <= i <= n,
            n == s@.len(),
            after_last_sep(s@.take(i as int)) == s@.subrange(cut as int, i as int),
        decreases n - i,
    {
        proof {
            assert(s@.take(i + 1).drop_last() =~= s@.take(i as int));
        }
        if s.get_char(i) == '/' {
            cut = i + 1;
            proof {
                assert(after_last_sep(s@.take(i + 1)) =~= s@.subrange(cut as int, i + 1));
            }
        } else {
            proof {
                assert(after_last_sep(s@.take(i + 1)) =~= s@.subrange(cut as int, i + 1));
            }
        }
        i += 1;
    }
    proof {
        assert(s@.take(n as int) =~= s@);
        assert(s@.subrange(0, n as int) =~= s@);
    }
    if cut == n {
        String::from_str(s)
    } else {
        String::from_str(s.substring_char(cut, n))
    }
}

/// Builds the one-level listing of a directory from its entries and the
/// shared state, synchronously: files carry their sizes, subdirectories
/// carry a cached aggregate where one exists and an unknown size
/// otherwise, never triggering any recursion; the entries come back
/// sorted in listing order.  The second result says whether the caller
/// must now start the one background computation for the normalized root
/// path, which this call has then marked in flight.  The cache is only
/// read, so the call never waits on a recursive result.
pub fn analyze_directory(
    path: &str,
    entries: Vec<EntryMeta>,
    cache: &SizeCache,
    in_progress: &mut InProgressSet,
) -> (res: (FileNode, bool))
    requires
        direct_total(entries@) <= u64::MAX,
    ensures
        res.0.path@ == spec_normalize(path@),
        res.0.name@ == node_name(spec_normalize(path@)),
        res.0.is_dir,
        res.0.base_size as int == direct_total(entries@),
        res.0.size == if cache@.contains_key(spec_normalize(path@)) {
            Some(cache@[spec_normalize(path@)].size)
        } else {
            None::<u64>
        },
        res.0.file_count == if cache@.contains_key(spec_normalize(path@)) {
            cache@[spec_normalize(path@)].file_count
        } else {
            0u64
        },
        res.0.children is Some,
        nodes_sorted(res.0.children->0@),
        res.0.children->0@.to_multiset() == nodes_for(entries@, cache@).to_multiset(),
        res.1 == begin_allowed(cache@, old(in_progress)@, spec_normalize(path@)),
        final(in_progress)@ == if res.1 {
            old(in_progress)@.insert(spec_normalize(path@))
        } else {
            old(in_progress)@
        },
{
    let root_path = normalize_path_string(path);
    let mut children: Vec<FileNode> = Vec::new();
    let mut base_size: u64 = 0;
    let mut i: usize = 0;
    while i < entries.len()
        invariant
            i <= entries@.len(),
            children@ == nodes_for(entries@, cache@).take(i as int),
            base_size as int == direct_total(entries@.take(i as int)),
            direct_total(entries@) <= u64::MAX,
        decreases entries@.len() - i,
    {
        proof {
            assert(entries@.take(i + 1).drop_last() =~= entries@.take(i as int));
            lemma_direct_total_take_le(entries@, i + 1);
        }
        let e = &entries[i];
        let node = if e.is_dir {
            match cache.get(e.path.as_str()) {
                Some(rec) => FileNode {
                    name: e.name.clone(),
                    path: e.path.clone(),
                    size: Some(rec.size),
                    base_size: 0,
                    is_dir: true,
                    file_count: rec.file_count,
                    children: None,
                },
                None => FileNode {
                    name: e.name.clone(),
                    path: e.path.clone(),
                    size: None,
                    base_size: 0,
                    is_dir: true,
                    file_count: 0,
                    children: None,
                },
            }
        } else {
            base_size = base_size + e.len;
            FileNode {
                name: e.name.clone(),
                path: e.path.clone(),
                size: Some(e.len),
                base_size: e.len,
                is_dir: false,
                file_count: 1,
                children: None,
            }
        };
        children.push(node);
        proof {
            assert(children@ =~= nodes_for(entries@, cache@).take(i + 1));
        }
        i += 1;
    }
    proof {
        assert(entries@.take(entries@.len() as int) =~= entries@);
        assert(nodes_for(entries@, cache@).take(entries@.len() as int) =~= nodes_for(
            entries@,
            cache@,
        ));
    }
    let children = sort_nodes(children);

    let started = try_mark_in_progress(root_path.as_str(), cache, in_progress);

    let name = node_display_name(root_path.as_str());
    let (root_size, root_count) = match cache.get(root_path.as_str()) {
        Some(rec) => (Some(rec.size), rec.file_count),
        None => (None, 0u64),
    };
    let root = FileNode {
        name,
        path: root_path,
        size: root_size,
        base_size,
        is_dir: true,
        file_count: root_count,
        children: Some(children),
    };
    (root, started)
}

} // verus!
