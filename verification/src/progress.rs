use vstd::prelude::*;
use vstd::string::*;

verus! {

use crate::cache::SizeCache;
use crate::records::SizeRecord;
use crate::strutil::str_eq;

/// The set of path keys named by a sequence of stored strings.
pub open spec fn key_set(s: Seq<String>) -> Set<Seq<char>>
    decreases s.len(),
{
    if s.len() == 0 {
        Set::empty()
    } else {
        key_set(s.drop_last()).insert(s.last()@)
    }
}

/// The set of normalized paths whose background computation has been
/// started and has not yet finished.  The host serializes access to it
/// together with the cache, so each operation is one atomic step.
pub struct InProgressSet {
    entries: Vec<String>,
}

impl View for InProgressSet {
    type V = Set<Seq<char>>;

    closed spec fn view(&self) -> Set<Seq<char>> {
        key_set(self.entries@)
    }
}

proof fn lemma_key_set_scan(s: Seq<String>, k: Seq<char>, i: int)
    requires
        0 <= i <= s.len(),
        forall|j: int| 0 <= j < i ==> s[j]@ != k,
    ensures
        i < s.len() && s[i]@ == k ==> key_set(s).contains(k),
        i == s.len() ==> !key_set(s).contains(k),
    decreases s.len(),
{
    if s.len() > 0 {
        if i < s.len() && s[i]@ == k {
            if i == s.len() - 1 {
            } else {
                lemma_key_set_scan(s.drop_last(), k, i);
            }
        } else {
            lemma_key_set_scan(s.drop_last(), k, if i == s.len() { i - 1 } else { i });
        }
    }
}

impl InProgressSet {
    /// An empty set.
    pub fn new() -> (r: InProgressSet)
        ensures
            r@ == Set::<Seq<char>>::empty(),
    {
        InProgressSet { entries: Vec::new() }
    }

    /// Whether a computation for this path is currently marked in flight.
    pub fn contains(&self, path: &str) -> (r: bool)
        ensures
            r == self@.contains(path@),
    {
        let mut i: usize = 0;
        while i < self.entries.len()
            invariant
                i <= self.entries@.len(),
                forall|j: int| 0 <= j < i ==> self.entries@[j]@ != path@,
            decreases self.entries@.len() - i,
        {
            if str_eq(self.entries[i].as_str(), path) {
                proof {
                    lemma_key_set_scan(self.entries@, path@, i as int);
                }
                return true;
            }
            i += 1;
        }
        proof {
            lemma_key_set_scan(self.entries@, path@, self.entries@.len() as int);
        }
        false
    }

    /// Marks a path as in flight.
    pub fn insert(&mut self, path: String)
        ensures
            final(self)@ == old(self)@.insert(path@),
    {
        let ghost prior = self.entries@;
        self.entries.push(path);
        proof {
            assert(self.entries@.drop_last() =~= prior);
            assert(self@ =~= old(self)@.insert(path@));
        }
    }

    /// Marks a path as no longer in flight, whatever state its
    /// computation ended in.
    pub fn end(&mut self, path: &str)
        ensures
            final(self)@ == old(self)@.remove(path@),
    {
        let mut kept: Vec<String> = Vec::new();
        let mut i: usize = 0;
        while i < self.entries.len()
            invariant
                i <= self.entries@.len(),
                key_set(kept@) == key_set(self.entries@.take(i as int)).remove(path@),
            decreases self.entries@.len() - i,
        {
            let ghost kept_prior = kept@;
            let keep = !str_eq(self.entries[i].as_str(), path);
            if keep {
                let item = self.entries[i].clone();
                kept.push(item);
            }
            proof {
                assert(self.entries@.take(i + 1).drop_last() =~= self.entries@.take(i as int));
                if keep {
                    assert(kept@.drop_last() =~= kept_prior);
                    assert(key_set(kept@) =~= key_set(self.entries@.take(i + 1)).remove(path@));
                } else {
                    assert(key_set(kept@) =~= key_set(self.entries@.take(i + 1)).remove(path@));
                }
            }
            i += 1;
        }
        proof {
            assert(self.entries@.take(self.entries@.len() as int) =~= self.entries@);
        }
        self.entries = kept;
    }
}

/// Whether a new background computation for `path` may start: the result
/// is neither cached already nor being computed right now.
pub open spec fn begin_allowed(
    cache: Map<Seq<char>, SizeRecord>,
    in_progress: Set<Seq<char>>,
    path: Seq<char>,
) -> bool {
    !cache.contains_key(path) && !in_progress.contains(path)
}

/// Decides whether to start a background computation for a normalized
/// path and, when the answer is yes, marks the path as in flight.  The
/// host holds the shared state's lock across the call, so the cache
/// check, the set check and the insertion form one atomic step: of two
/// concurrent callers for the same path at most one is told to start.
pub fn try_mark_in_progress(
    normalized_path: &str,
    cache: &SizeCache,
    in_progress: &mut InProgressSet,
) -> (started: bool)
    ensures
        started == begin_allowed(cache@, old(in_progress)@, normalized_path@),
        final(in_progress)@ == if started {
            old(in_progress)@.insert(normalized_path@)
        } else {
            old(in_progress)@
        },
{
    let cache_hit = cache.get(normalized_path).is_some();
    if cache_hit {
        return false;
    }
    if in_progress.contains(normalized_path) {
        return false;
    }
    in_progress.insert(String::from_str(normalized_path));
    true
}

/// At most one computation is in flight per path: once `try_mark_in_progress`
/// has answered yes for a path, every further request for that path is
/// refused until the path is marked ended; after the end, a new
/// computation may begin exactly when the path's result is still not
/// cached.  Requests for other paths are unaffected.
pub proof fn lemma_at_most_one_in_flight(
    cache: Map<Seq<char>, SizeRecord>,
    in_progress: Set<Seq<char>>,
    path: Seq<char>,
    other: Seq<char>,
)
    ensures
        begin_allowed(cache, in_progress, path) ==> !begin_allowed(
            cache,
            in_progress.insert(path),
            path,
        ),
        begin_allowed(cache, in_progress.remove(path), path) == !cache.contains_key(path),
        other != path ==> begin_allowed(cache, in_progress.insert(path), other) == begin_allowed(
            cache,
            in_progress,
            other,
        ),
{
}

} // verus!
