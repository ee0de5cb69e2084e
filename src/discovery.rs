//! Choosing the numbered metadata files of a directory listing and merging
//! their records.
use vstd::prelude::*;
use vstd::seq_lib::lemma_flatten_concat;

use crate::ranking::{is_rank_order, kept_order, lemma_one_label_per_linked_attachment};
use crate::record::{has_context, Attachment};
use crate::text::{ends_with, has_prefix, has_suffix, lex_less, lex_lt, starts_with};

verus! {

/// Start of every metadata file name.
pub open spec fn metadata_prefix() -> Seq<char> {
    "attachments_"@
}

/// End of every metadata file name.
pub open spec fn metadata_suffix() -> Seq<char> {
    ".json"@
}

/// Whether a file name matches `attachments_*.json`.
pub open spec fn is_metadata_name(s: Seq<char>) -> bool {
    &&& starts_with(s, metadata_prefix())
    &&& ends_with(s, metadata_suffix())
    &&& s.len() >= metadata_prefix().len() + metadata_suffix().len()
}

/// The characters of each name.
pub open spec fn names_view(names: Seq<String>) -> Seq<Seq<char>> {
    names.map_values(|s: String| s@)
}

/// Whether name `a` is read before name `b`: lexicographic order, and of two
/// equal names the one listed first.
pub open spec fn file_before(names: Seq<Seq<char>>, a: int, b: int) -> bool {
    lex_lt(names[a], names[b]) || (names[a] == names[b] && a < b)
}

/// `order` lists once each index of `names` that names a metadata file, in
/// lexicographic order of the names.
pub open spec fn is_metadata_order(names: Seq<Seq<char>>, order: Seq<usize>) -> bool {
    &&& forall|i: int| 0 <= i < order.len() ==> order[i] < names.len()
    &&& forall|i: int| 0 <= i < order.len() ==> is_metadata_name(#[trigger] names[order[i] as int])
    &&& forall|k: usize| k < names.len() && is_metadata_name(names[k as int]) ==> #[trigger] order.contains(k)
    &&& forall|i: int, j: int|
        0 <= i < j < order.len() ==> file_before(names, order[i] as int, order[j] as int)
}

proof fn lemma_lex_lt_irreflexive(a: Seq<char>)
    ensures
        !lex_lt(a, a),
    decreases a.len(),
{
    if a.len() > 0 {
        lemma_lex_lt_irreflexive(a.drop_first());
    }
}

proof fn lemma_lex_lt_total(a: Seq<char>, b: Seq<char>)
    ensures
        lex_lt(a, b) || lex_lt(b, a) || a == b,
    decreases a.len(),
{
    if a.len() > 0 && b.len() > 0 && a[0] == b[0] {
        lemma_lex_lt_total(a.drop_first(), b.drop_first());
        if a.drop_first() == b.drop_first() {
            assert forall|i: int| 0 <= i < a.len() implies a[i] == b[i] by {
                if i > 0 {
                    assert(a[i] == a.drop_first()[i - 1]);
                    assert(b[i] == b.drop_first()[i - 1]);
                }
            }
            assert(a =~= b);
        }
    } else if a.len() > 0 && b.len() > 0 {
    } else if a.len() == 0 && b.len() == 0 {
        assert(a =~= b);
    }
}

proof fn lemma_lex_lt_transitive(a: Seq<char>, b: Seq<char>, c: Seq<char>)
    requires
        lex_lt(a, b),
        lex_lt(b, c),
    ensures
        lex_lt(a, c),
    decreases a.len(),
{
    if a.len() > 0 && b.len() > 0 && c.len() > 0 && a[0] == b[0] && b[0] == c[0] {
        lemma_lex_lt_transitive(a.drop_first(), b.drop_first(), c.drop_first());
    }
}

/// Whether `name` matches `attachments_*.json`.
pub fn is_metadata_file(name: &str) -> (r: bool)
    ensures
        r == is_metadata_name(name@),
{
    let prefix = "attachments_";
    let suffix = ".json";
    proof {
        reveal_strlit("attachments_");
        reveal_strlit(".json");
    }
    has_prefix(name, prefix) && has_suffix(name, suffix) && name.unicode_len() >= 17
}

/// The indices of the names in `names` that name metadata files, in the
/// order in which the files are read.
pub fn metadata_file_order(names: &Vec<String>) -> (r: Vec<usize>)
    ensures
        is_metadata_order(names_view(names@), r@),
{
    let ghost nv = names_view(names@);
    let n = names.len();
    let mut r: Vec<usize> = Vec::new();
    let mut k: usize = 0;
    while k < n
        invariant
            n == names@.len(),
            nv == names_view(names@),
            k <= n,
            forall|i: int| 0 <= i < r@.len() ==> r@[i] < k,
            forall|i: int| 0 <= i < r@.len() ==> is_metadata_name(#[trigger] nv[r@[i] as int]),
            forall|m: usize| m < k && is_metadata_name(nv[m as int]) ==> #[trigger] r@.contains(m),
            forall|i: int, j: int|
                0 <= i < j < r@.len() ==> file_before(nv, r@[i] as int, r@[j] as int),
        decreases n - k,
    {
        assert(nv[k as int] == names@[k as int]@);
        if is_metadata_file(names[k].as_str()) {
            let mut p: usize = 0;
            while p < r.len() && !lex_less(names[k].as_str(), names[r[p]].as_str())
                invariant
                    n == names@.len(),
                    nv == names_view(names@),
                    k < n,
                    p <= r@.len(),
                    forall|i: int| 0 <= i < r@.len() ==> r@[i] < k,
                    forall|i: int| 0 <= i < p ==> !lex_lt(nv[k as int], nv[r@[i] as int]),
                decreases r@.len() - p,
            {
                p = p + 1;
            }
            let ghost old_r = r@;
            r.insert(p, k);
            assert(forall|i: int| p < i < r@.len() ==> r@[i] == old_r[i - 1]);
            assert(forall|i: int| 0 <= i < p ==> r@[i] == old_r[i]);
            assert forall|i: int, j: int| 0 <= i < j < r@.len() implies file_before(
                nv,
                r@[i] as int,
                r@[j] as int,
            ) by {
                if j == p as int {
                    lemma_lex_lt_total(nv[k as int], nv[r@[i] as int]);
                } else if i == p as int {
                    let q = old_r[p as int] as int;
                    assert(lex_lt(nv[k as int], nv[q]));
                    if j > p + 1 {
                        let w = old_r[j - 1] as int;
                        assert(file_before(nv, q, w));
                        if lex_lt(nv[q], nv[w]) {
                            lemma_lex_lt_transitive(nv[k as int], nv[q], nv[w]);
                        }
                    }
                } else if i > p as int {
                    assert(file_before(nv, old_r[i - 1] as int, old_r[j - 1] as int));
                } else if j > p as int {
                    assert(file_before(nv, old_r[i] as int, old_r[j - 1] as int));
                }
            }
            assert forall|m: usize| m < k + 1 && is_metadata_name(nv[m as int]) implies #[trigger] r@.contains(m) by {
                if m == k {
                    assert(r@[p as int] == m);
                } else {
                    assert(old_r.contains(m));
                    let i0 = choose|i: int| 0 <= i < old_r.len() && old_r[i] == m;
                    if i0 < p {
                        assert(r@[i0] == m);
                    } else {
                        assert(r@[i0 + 1] == m);
                    }
                }
            }
        }
        k = k + 1;
    }
    r
}

/// The names in `names` of the metadata files, in the order in which the
/// files are read.
pub fn select_metadata_files(names: &Vec<String>) -> (r: Vec<String>)
    ensures
        exists|order: Seq<usize>|
            is_metadata_order(names_view(names@), order) && names_view(r@) == order.map_values(
                |k: usize| names@[k as int]@,
            ),
{
    let order = metadata_file_order(names);
    let mut r: Vec<String> = Vec::new();
    let mut i: usize = 0;
    while i < order.len()
        invariant
            is_metadata_order(names_view(names@), order@),
            i <= order@.len(),
            names_view(r@) == order@.subrange(0, i as int).map_values(|k: usize| names@[k as int]@),
        decreases order@.len() - i,
    {
        assert(names_view(names@)[order@[i as int] as int] == names@[order@[i as int] as int]@);
        let s = names[order[i]].clone();
        let ghost before = r@;
        r.push(s);
        assert(names_view(r@) =~= names_view(before).push(s@));
        assert(names_view(r@) =~= order@.subrange(0, i + 1).map_values(|k: usize| names@[k as int]@));
        i = i + 1;
    }
    assert(order@.subrange(0, order@.len() as int) =~= order@);
    r
}

/// The records of each metadata file, in file order.
pub open spec fn batches_view(batches: Seq<Vec<Attachment>>) -> Seq<Seq<Attachment>> {
    batches.map_values(|b: Vec<Attachment>| b@)
}

/// All records of the metadata files, one file after the other.
pub fn merge_metadata(batches: Vec<Vec<Attachment>>) -> (r: Vec<Attachment>)
    ensures
        r@ == batches_view(batches@).flatten(),
{
    let ghost all = batches_view(batches@);
    let mut rest = batches;
    let mut r: Vec<Attachment> = Vec::new();
    let ghost mut i: int = 0;
    while rest.len() > 0
        invariant
            0 <= i <= all.len(),
            batches_view(rest@) == all.subrange(i, all.len() as int),
            r@ == all.subrange(0, i).flatten(),
        decreases rest@.len(),
    {
        let ghost before = rest@;
        let mut b = rest.remove(0);
        proof {
            assert(batches_view(before).len() == before.len());
            assert(batches_view(before)[0] == before[0]@);
            assert(all.subrange(i, all.len() as int)[0] == all[i]);
            assert(b@ == all[i]);
            assert(all.subrange(0, i + 1) =~= all.subrange(0, i).push(all[i]));
            all.subrange(0, i).lemma_flatten_push(all[i]);
            assert forall|j: int| 0 <= j < rest@.len() implies batches_view(rest@)[j] == all[i + 1 + j] by {
                assert(rest@[j] == before[j + 1]);
                assert(batches_view(before)[j + 1] == all.subrange(i, all.len() as int)[j + 1]);
            }
            assert(batches_view(rest@) =~= all.subrange(i + 1, all.len() as int));
        }
        r.append(&mut b);
        proof {
            i = i + 1;
        }
    }
    assert(all.subrange(0, i) =~= all);
    r
}

/// Where record `j` of metadata file `b` stands once the files are merged.
pub open spec fn merged_index(batches: Seq<Seq<Attachment>>, b: int, j: int) -> int {
    batches.subrange(0, b).flatten().len() + j
}

proof fn lemma_merged_index(batches: Seq<Seq<Attachment>>, b: int, j: int)
    requires
        0 <= b < batches.len(),
        0 <= j < batches[b].len(),
    ensures
        0 <= merged_index(batches, b, j) < batches.flatten().len(),
        batches.flatten()[merged_index(batches, b, j)] == batches[b][j],
{
    let x = batches.subrange(0, b);
    let y = batches.subrange(b, batches.len() as int);
    lemma_flatten_concat(x, y);
    assert(batches =~= x + y);
    assert(y.first() == batches[b]);
    assert(y.flatten() == y.first() + y.drop_first().flatten());
}

/// The records of all metadata files are ranked together: a record of any
/// file that has a parent item is labelled, and the first line belongs to an
/// attachment at least as large as it, whichever file either came from.
pub proof fn lemma_merged_files_ranked_together(
    batches: Seq<Seq<Attachment>>,
    sizes: Seq<u64>,
    order: Seq<usize>,
    b: int,
    j: int,
)
    requires
        sizes.len() == batches.flatten().len(),
        sizes.len() <= usize::MAX,
        is_rank_order(sizes, order),
        0 <= b < batches.len(),
        0 <= j < batches[b].len(),
        has_context(batches[b][j]),
    ensures
        0 <= merged_index(batches, b, j) < sizes.len(),
        kept_order(batches.flatten(), order).contains(merged_index(batches, b, j) as usize),
        sizes[kept_order(batches.flatten(), order)[0] as int] >= sizes[merged_index(
            batches,
            b,
            j,
        )],
{
    let records = batches.flatten();
    let k = merged_index(batches, b, j);
    lemma_merged_index(batches, b, j);
    lemma_one_label_per_linked_attachment(records, sizes, order);
    let kept = kept_order(records, order);
    assert(kept.contains(k as usize));
    let i = choose|i: int| 0 <= i < kept.len() && kept[i] == k as usize;
    if i > 0 {
        assert(sizes[kept[0] as int] >= sizes[kept[i] as int]);
    }
}

} // verus!
