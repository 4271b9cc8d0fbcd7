use vstd::prelude::*;
use vstd::string::*;

verus! {

use crate::records::FileNode;

/// The lowercase folding of a character sequence, as Unicode defines it.
pub uninterp spec fn lower_of(s: Seq<char>) -> Seq<char>;

/// Relies on `str::to_lowercase`: the Unicode lowercase mapping of the
/// string, a function of its characters alone.
#[verifier::external_body]
fn lowercase(s: &str) -> (r: String)
    ensures
        r@ == lower_of(s@),
{
    s.to_lowercase()
}

/// Lexicographic order on character sequences by code point.
pub open spec fn lex_le(a: Seq<char>, b: Seq<char>) -> bool
    decreases a.len(),
{
    if a.len() == 0 {
        true
    } else if b.len() == 0 {
        false
    } else if a[0] as u32 == b[0] as u32 {
        lex_le(a.subrange(1, a.len() as int), b.subrange(1, b.len() as int))
    } else {
        (a[0] as u32) < (b[0] as u32)
    }
}

proof fn lemma_lex_le_total(a: Seq<char>, b: Seq<char>)
    ensures
        lex_le(a, b) || lex_le(b, a),
    decreases a.len(),
{
    if a.len() > 0 && b.len() > 0 && a[0] as u32 == b[0] as u32 {
        lemma_lex_le_total(a.subrange(1, a.len() as int), b.subrange(1, b.len() as int));
    }
}

proof fn lemma_lex_le_trans(a: Seq<char>, b: Seq<char>, c: Seq<char>)
    requires
        lex_le(a, b),
        lex_le(b, c),
    ensures
        lex_le(a, c),
    decreases a.len(),
{
    if a.len() > 0 && b.len() > 0 && c.len() > 0 && a[0] as u32 == b[0] as u32 && b[0] as u32
        == c[0] as u32 {
        lemma_lex_le_trans(
            a.subrange(1, a.len() as int),
            b.subrange(1, b.len() as int),
            c.subrange(1, c.len() as int),
        );
    }
}

fn lex_le_str(a: &str, b: &str) -> (r: bool)
    ensures
        r == lex_le(a@, b@),
    decreases a@.len(),
{
    let na = a.unicode_len();
    let nb = b.unicode_len();
    if na == 0 {
        true
    } else if nb == 0 {
        false
    } else {
        let ua = a.get_char(0) as u32;
        let ub = b.get_char(0) as u32;
        if ua == ub {
            let a2 = a.substring_char(1, na);
            let b2 = b.substring_char(1, nb);
            lex_le_str(a2, b2)
        } else {
            ua < ub
        }
    }
}

/// The size a listing entry sorts by: an unresolved directory size counts
/// as zero.
pub open spec fn size_key(n: FileNode) -> int {
    match n.size {
        Some(s) => s as int,
        None => 0,
    }
}

/// The listing order: directories before files; within a kind, larger
/// (known) sizes first; among equal sizes, names ascending without regard
/// to case.
pub open spec fn node_le(a: FileNode, b: FileNode) -> bool {
    if a.is_dir != b.is_dir {
        a.is_dir
    } else if size_key(a) != size_key(b) {
        size_key(a) > size_key(b)
    } else {
        lex_le(lower_of(a.name@), lower_of(b.name@))
    }
}

proof fn lemma_node_le_total(a: FileNode, b: FileNode)
    ensures
        node_le(a, b) || node_le(b, a),
{
    lemma_lex_le_total(lower_of(a.name@), lower_of(b.name@));
}

proof fn lemma_node_le_trans(a: FileNode, b: FileNode, c: FileNode)
    requires
        node_le(a, b),
        node_le(b, c),
    ensures
        node_le(a, c),
{
    if a.is_dir == b.is_dir && b.is_dir == c.is_dir && size_key(a) == size_key(b) && size_key(b)
        == size_key(c) {
        lemma_lex_le_trans(lower_of(a.name@), lower_of(b.name@), lower_of(c.name@));
    }
}

fn node_le_exec(a: &FileNode, b: &FileNode) -> (r: bool)
    ensures
        r == node_le(*a, *b),
{
    if a.is_dir != b.is_dir {
        a.is_dir
    } else {
        let sa: u64 = match a.size {
            Some(s) => s,
            None => 0,
        };
        let sb: u64 = match b.size {
            Some(s) => s,
            None => 0,
        };
        if sa != sb {
            sa > sb
        } else {
            let la = lowercase(a.name.as_str());
            let lb = lowercase(b.name.as_str());
            lex_le_str(la.as_str(), lb.as_str())
        }
    }
}

/// The sequence is in listing order.
pub open spec fn nodes_sorted(s: Seq<FileNode>) -> bool {
    forall|i: int, j: int| 0 <= i < j < s.len() ==> node_le(s[i], s[j])
}

/// Sorts listing entries: directories first, then descending by size with
/// unknown sizes counting as zero, ties broken by case-insensitive name.
/// The result holds exactly the given entries.
pub fn sort_nodes(nodes: Vec<FileNode>) -> (r: Vec<FileNode>)
    ensures
        nodes_sorted(r@),
        r@.to_multiset() == nodes@.to_multiset(),
{
    broadcast use vstd::seq_lib::group_to_multiset_ensures;

    let mut src = nodes;
    let mut out: Vec<FileNode> = Vec::new();
    proof {
        assert(out@.to_multiset().add(src@.to_multiset()) =~= nodes@.to_multiset());
    }
    while src.len() > 0
        invariant
            nodes_sorted(out@),
            forall|x: int, y: int|
                0 <= x < out@.len() && 0 <= y < src@.len() ==> node_le(out@[x], src@[y]),
            out@.to_multiset().add(src@.to_multiset()) == nodes@.to_multiset(),
        decreases src@.len(),
    {
        broadcast use vstd::seq_lib::group_to_multiset_ensures;

        let mut m: usize = 0;
        let mut k: usize = 1;
        proof {
            lemma_node_le_total(src@[0], src@[0]);
        }
        while k < src.len()
            invariant
                m < k,
                k <= src@.len(),
                src@.len() > 0,
                forall|t: int| 0 <= t < k ==> node_le(src@[m as int], src@[t]),
            decreases src@.len() - k,
        {
            if node_le_exec(&src[k], &src[m]) {
                proof {
                    assert forall|t: int| 0 <= t < k + 1 implies node_le(
                        src@[k as int],
                        src@[t],
                    ) by {
                        if t < k {
                            lemma_node_le_trans(src@[k as int], src@[m as int], src@[t]);
                        } else {
                            lemma_node_le_total(src@[k as int], src@[k as int]);
                        }
                    }
                }
                m = k;
            } else {
                proof {
                    lemma_node_le_total(src@[m as int], src@[k as int]);
                }
            }
            k += 1;
        }
        let ghost src_prior = src@;
        let ghost out_prior = out@;
        let x = src.remove(m);
        out.push(x);
        proof {
            assert(out@.to_multiset().add(src@.to_multiset()) =~= nodes@.to_multiset()) by {
                assert(src@.to_multiset() =~= src_prior.to_multiset().remove(x));
                assert(out@.to_multiset() =~= out_prior.to_multiset().insert(x));
                assert(src_prior.to_multiset().count(x) > 0);
                assert forall|e: FileNode|
                    out@.to_multiset().add(src@.to_multiset()).count(e) == nodes@.to_multiset()
                        .count(e) by {
                    assert(out_prior.to_multiset().add(src_prior.to_multiset()).count(e)
                        == nodes@.to_multiset().count(e));
                }
            }
            assert forall|x2: int, y2: int|
                0 <= x2 < out@.len() && 0 <= y2 < src@.len() implies node_le(
                out@[x2],
                src@[y2],
            ) by {
                assert(src@[y2] == if y2 < m { src_prior[y2] } else { src_prior[y2 + 1] });
            }
        }
    }
    out
}

} // verus!
