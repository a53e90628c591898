//! Disk usage of a file tree, listed in increasing order of size.

use vstd::prelude::*;
use vstd::seq_lib::{to_multiset_build, to_multiset_insert};

use crate::text::chars_of;

verus! {

broadcast use vstd::std_specs::vec::group_vec_axioms, vstd::seq_lib::group_to_multiset_ensures,
    vstd::multiset::group_multiset_axioms;

/// A file: a directory with its entries, or data with its size.
#[derive(Debug)]
pub enum File {
    /// A directory: its name and the files under it.
    Directory(String, Vec<File>),
    /// Data: its name and its size.
    Data(String, usize),
}

/// The size of a file; a directory's size is the sum of its entries' sizes.
pub open spec fn file_size(f: File) -> int
    decreases f,
{
    match f {
        File::Data(_, s) => s as int,
        File::Directory(_, fs) => sizes_from(fs, 0),
    }
}

/// The sizes of `fs[i..]`, summed.
pub open spec fn sizes_from(fs: Vec<File>, i: int) -> int
    decreases fs, fs@.len() - i,
{
    if 0 <= i < fs@.len() {
        file_size(fs[i]) + sizes_from(fs, i + 1)
    } else {
        0
    }
}

/// Every file of the tree with its size, children before their directory.
pub open spec fn entries(f: File) -> Seq<(Seq<char>, int)>
    decreases f,
{
    match f {
        File::Data(n, s) => seq![(n@, s as int)],
        File::Directory(n, fs) => entries_from(fs, 0) + seq![(n@, sizes_from(fs, 0))],
    }
}

/// The entries of `fs[i..]`, one file after the other.
pub open spec fn entries_from(fs: Vec<File>, i: int) -> Seq<(Seq<char>, int)>
    decreases fs, fs@.len() - i,
{
    if 0 <= i < fs@.len() {
        entries(fs[i]) + entries_from(fs, i + 1)
    } else {
        seq![]
    }
}

proof fn lemma_sizes_nonneg(f: File)
    ensures
        file_size(f) >= 0,
    decreases f,
{
    if let File::Directory(_, fs) = f {
        lemma_sizes_from_nonneg(fs, 0);
    }
}

proof fn lemma_sizes_from_nonneg(fs: Vec<File>, i: int)
    ensures
        sizes_from(fs, i) >= 0,
    decreases fs, fs@.len() - i,
{
    if 0 <= i < fs@.len() {
        assert(decreases_to!(fs => fs[i]));
        lemma_sizes_nonneg(fs[i]);
        lemma_sizes_from_nonneg(fs, i + 1);
    }
}

pub open spec fn listing_view(v: Seq<(&str, usize)>) -> Seq<(Seq<char>, int)> {
    v.map_values(|e: (&str, usize)| (e.0@, e.1 as int))
}

/// Appends the entries of `f` to `out` and returns the size of `f`.
fn collect<'a>(f: &'a File, out: &mut Vec<(&'a str, usize)>) -> (size: usize)
    requires
        file_size(*f) <= usize::MAX,
    ensures
        size == file_size(*f),
        listing_view(final(out)@) == listing_view(old(out)@) + entries(*f),
    decreases f,
{
    match f {
        File::Data(n, s) => {
            let ghost before = listing_view(out@);
            out.push((n.as_str(), *s));
            assert(listing_view(out@) =~= before + entries(*f));
            *s
        },
        File::Directory(n, fs) => {
            let ghost start = listing_view(out@);
            let mut total: usize = 0;
            let mut i: usize = 0;
            assert(start + entries_from(*fs, 0) =~= listing_view(out@) + entries_from(*fs, 0));
            while i < fs.len()
                invariant
                    i <= fs@.len(),
                    *f == File::Directory(*n, *fs),
                    sizes_from(*fs, 0) <= usize::MAX,
                    total + sizes_from(*fs, i as int) == sizes_from(*fs, 0),
                    start + entries_from(*fs, 0) == listing_view(out@) + entries_from(*fs, i as int),
                decreases fs.len() - i,
            {
                proof {
                    assert(decreases_to!(*f => (*f)->Directory_1));
                    assert(decreases_to!(*fs => fs[i as int]));
                    lemma_sizes_from_nonneg(*fs, i + 1);
                    lemma_sizes_nonneg(fs[i as int]);
                }
                let ghost mid = listing_view(out@);
                let s = collect(&fs[i], out);
                total = total + s;
                proof {
                    assert(mid + entries_from(*fs, i as int) =~= listing_view(out@) + entries_from(
                        *fs,
                        i + 1,
                    ));
                }
                i += 1;
            }
            let ghost before = listing_view(out@);
            assert(entries_from(*fs, i as int) == Seq::<(Seq<char>, int)>::empty());
            assert(total == sizes_from(*fs, 0));
            assert(before == start + entries_from(*fs, 0));
            out.push((n.as_str(), total));
            assert(listing_view(out@) =~= before.push((n@, total as int)));
            assert(entries(*f) == entries_from(*fs, 0) + seq![(n@, sizes_from(*fs, 0))]);
            assert(listing_view(out@) =~= start + entries(*f));
            total
        },
    }
}

/// `a` is `b` or comes before it, comparing character by character.
pub open spec fn lex_le(a: Seq<char>, b: Seq<char>) -> bool
    decreases a.len(),
{
    if a.len() == 0 {
        true
    } else if b.len() == 0 {
        false
    } else if a[0] != b[0] {
        a[0] < b[0]
    } else {
        lex_le(a.drop_first(), b.drop_first())
    }
}

proof fn lemma_lex_total(a: Seq<char>, b: Seq<char>)
    ensures
        lex_le(a, b) || lex_le(b, a),
    decreases a.len(),
{
    if a.len() > 0 && b.len() > 0 && a[0] == b[0] {
        lemma_lex_total(a.drop_first(), b.drop_first());
    }
}

proof fn lemma_lex_trans(a: Seq<char>, b: Seq<char>, c: Seq<char>)
    requires
        lex_le(a, b),
        lex_le(b, c),
    ensures
        lex_le(a, c),
    decreases a.len(),
{
    if a.len() > 0 && b.len() > 0 && c.len() > 0 && a[0] == b[0] && b[0] == c[0] {
        lemma_lex_trans(a.drop_first(), b.drop_first(), c.drop_first());
    }
}

/// Entries go by size, then by name.
pub open spec fn entry_le(x: (Seq<char>, int), y: (Seq<char>, int)) -> bool {
    x.1 < y.1 || (x.1 == y.1 && lex_le(x.0, y.0))
}

proof fn lemma_entry_order()
    ensures
        forall|x: (Seq<char>, int), y: (Seq<char>, int)| entry_le(x, y) || entry_le(y, x),
        forall|x: (Seq<char>, int), y: (Seq<char>, int), z: (Seq<char>, int)|
            entry_le(x, y) && entry_le(y, z) ==> entry_le(x, z),
{
    assert forall|x: (Seq<char>, int), y: (Seq<char>, int)| entry_le(x, y) || entry_le(y, x) by {
        lemma_lex_total(x.0, y.0);
    }
    assert forall|x: (Seq<char>, int), y: (Seq<char>, int), z: (Seq<char>, int)|
        entry_le(x, y) && entry_le(y, z) implies entry_le(x, z) by {
        if x.1 == y.1 && y.1 == z.1 {
            lemma_lex_trans(x.0, y.0, z.0);
        }
    }
}

fn name_le(a: &str, b: &str) -> (r: bool)
    ensures
        r == lex_le(a@, b@),
{
    let x = chars_of(a);
    let y = chars_of(b);
    let mut i: usize = 0;
    assert(a@.skip(0) =~= a@);
    assert(b@.skip(0) =~= b@);
    while i < x.len() && i < y.len() && x[i] == y[i]
        invariant
            x@ == a@,
            y@ == b@,
            i <= x@.len(),
            i <= y@.len(),
            lex_le(a@, b@) == lex_le(a@.skip(i as int), b@.skip(i as int)),
        decreases x.len() - i,
    {
        proof {
            assert(a@.skip(i as int).drop_first() =~= a@.skip(i + 1));
            assert(b@.skip(i as int).drop_first() =~= b@.skip(i + 1));
        }
        i += 1;
    }
    if i == x.len() {
        true
    } else if i == y.len() {
        false
    } else {
        x[i] < y[i]
    }
}

fn entry_before(x: &(&str, usize), y: &(&str, usize)) -> (r: bool)
    ensures
        r == entry_le((x.0@, x.1 as int), (y.0@, y.1 as int)),
{
    x.1 < y.1 || (x.1 == y.1 && name_le(x.0, y.0))
}

pub open spec fn sorted_listing(s: Seq<(Seq<char>, int)>) -> bool {
    forall|i: int, j: int| 0 <= i < j < s.len() ==> entry_le(s[i], s[j])
}

/// Every file of the tree (directories included, with the total size of
/// their contents) in increasing order of size, then of name. All sizes
/// must fit in a `usize`.
pub fn du_sort(root: &File) -> (r: Vec<(&str, usize)>)
    requires
        file_size(*root) <= usize::MAX,
    ensures
        sorted_listing(listing_view(r@)),
        listing_view(r@).to_multiset() == entries(*root).to_multiset(),
{
    let mut all: Vec<(&str, usize)> = Vec::new();
    collect(root, &mut all);
    assert(listing_view(all@) =~= entries(*root));
    proof {
        lemma_entry_order();
    }
    let mut r: Vec<(&str, usize)> = Vec::new();
    let mut i: usize = 0;
    assert(listing_view(r@) =~= Seq::<(Seq<char>, int)>::empty());
    assert(listing_view(all@).take(0) =~= Seq::<(Seq<char>, int)>::empty());
    while i < all.len()
        invariant
            i <= all@.len(),
            sorted_listing(listing_view(r@)),
            listing_view(r@).to_multiset() == listing_view(all@).take(i as int).to_multiset(),
            forall|x: (Seq<char>, int), y: (Seq<char>, int)| entry_le(x, y) || entry_le(y, x),
            forall|x: (Seq<char>, int), y: (Seq<char>, int), z: (Seq<char>, int)|
                entry_le(x, y) && entry_le(y, z) ==> entry_le(x, z),
        decreases all.len() - i,
    {
        let e = all[i];
        let ghost ev = (e.0@, e.1 as int);
        let mut pos: usize = 0;
        while pos < r.len() && entry_before(&r[pos], &e)
            invariant
                pos <= r@.len(),
                ev == (e.0@, e.1 as int),
                forall|k: int| 0 <= k < pos ==> entry_le(listing_view(r@)[k], ev),
            decreases r.len() - pos,
        {
            assert(listing_view(r@)[pos as int] == (r@[pos as int].0@, r@[pos as int].1 as int));
            pos += 1;
        }
        proof {
            if pos < r@.len() {
                assert(listing_view(r@)[pos as int] == (r@[pos as int].0@, r@[pos as int].1 as int));
            }
        }
        let ghost before = listing_view(r@);
        r.insert(pos, e);
        proof {
            assert(listing_view(r@) =~= before.insert(pos as int, ev));
            to_multiset_insert(before, pos as int, ev);
            assert(listing_view(all@).take(i + 1) =~= listing_view(all@).take(i as int).push(ev));
            to_multiset_build(listing_view(all@).take(i as int), ev);
            let now = listing_view(r@);
            assert forall|a: int, b: int| 0 <= a < b < now.len() implies entry_le(now[a], now[b]) by {
                if a < pos && b == pos {
                } else if a < pos && b > pos {
                    assert(now[b] == before[b - 1]);
                    assert(now[a] == before[a]);
                } else if a == pos && b > pos {
                    assert(now[b] == before[b - 1]);
                    if pos < before.len() {
                        assert(!entry_le(before[pos as int], ev));
                        if b - 1 > pos {
                            assert(entry_le(before[pos as int], before[b - 1]));
                        }
                    }
                } else if a > pos {
                    assert(now[a] == before[a - 1]);
                    assert(now[b] == before[b - 1]);
                } else {
                    assert(now[a] == before[a]);
                    assert(now[b] == before[b]);
                }
            }
        }
        i += 1;
    }
    assert(listing_view(all@).take(i as int) =~= listing_view(all@));
    r
}

} // verus!
