use vstd::prelude::*;

verus! {

use crate::records::SizeRecord;
use crate::strutil::str_eq;

/// The map described by an association list whose front entry wins.
pub open spec fn assoc_map(s: Seq<(String, SizeRecord)>) -> Map<Seq<char>, SizeRecord>
    decreases s.len(),
{
    if s.len() == 0 {
        Map::empty()
    } else {
        assoc_map(s.drop_first()).insert(s[0].0@, s[0].1)
    }
}

/// The shared size cache: a mapping from normalized path strings to the
/// recursive aggregate computed for that path.  The host serializes
/// access to it; every operation here is sequential.
pub struct SizeCache {
    entries: Vec<(String, SizeRecord)>,
}

impl View for SizeCache {
    type V = Map<Seq<char>, SizeRecord>;

    closed spec fn view(&self) -> Map<Seq<char>, SizeRecord> {
        assoc_map(self.entries@)
    }
}

proof fn lemma_assoc_scan(s: Seq<(String, SizeRecord)>, k: Seq<char>, i: int)
    requires
        0 <= i <= s.len(),
        forall|j: int| 0 <= j < i ==> s[j].0@ != k,
    ensures
        i < s.len() && s[i].0@ == k ==> assoc_map(s).contains_key(k) && assoc_map(s)[k]
            == s[i].1,
        i == s.len() ==> !assoc_map(s).contains_key(k),
    decreases s.len(),
{
    if s.len() > 0 {
        if i == 0 && s[0].0@ == k {
        } else {
            lemma_assoc_scan(s.drop_first(), k, if i == 0 { 0 } else { i - 1 });
        }
    }
}

impl SizeCache {
    /// An empty cache.
    pub fn new() -> (r: SizeCache)
        ensures
            r@ == Map::<Seq<char>, SizeRecord>::empty(),
    {
        SizeCache { entries: Vec::new() }
    }

    /// Looks a path up; returns the record stored for it, if any.
    pub fn get(&self, path: &str) -> (r: Option<SizeRecord>)
        ensures
            r == if self@.contains_key(path@) {
                Some(self@[path@])
            } else {
                None::<SizeRecord>
            },
    {
        let mut i: usize = 0;
        while i < self.entries.len()
            invariant
                i <= self.entries@.len(),
                forall|j: int| 0 <= j < i ==> self.entries@[j].0@ != path@,
            decreases self.entries@.len() - i,
        {
            if str_eq(self.entries[i].0.as_str(), path) {
                proof {
                    lemma_assoc_scan(self.entries@, path@, i as int);
                }
                return Some(self.entries[i].1);
            }
            i += 1;
        }
        proof {
            lemma_assoc_scan(self.entries@, path@, self.entries@.len() as int);
        }
        None
    }

    /// Stores a record for a path; a later insert for the same path wins.
    pub fn insert(&mut self, path: String, record: SizeRecord)
        ensures
            final(self)@ == old(self)@.insert(path@, record),
    {
        let ghost prior = self.entries@;
        self.entries.insert(0, (path, record));
        proof {
            assert(self.entries@.drop_first() =~= prior);
            assert(self@ =~= old(self)@.insert(path@, record));
        }
    }
}

} // verus!
