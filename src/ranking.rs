//! Ranking attachments from largest to smallest and labelling them.
use vstd::prelude::*;

use crate::error::IntegrityViolation;
use crate::record::{context_of, has_context, Attachment};
use crate::text::{decimal, decimal_digits};

verus! {

/// Whether the attachment at index `a` is listed before the one at index
/// `b`: larger first, and of two equal sizes the one found first.
pub open spec fn ranks_before(sizes: Seq<u64>, a: int, b: int) -> bool {
    sizes[a] > sizes[b] || (sizes[a] == sizes[b] && a < b)
}

/// `order` lists every index of `sizes` once, largest size first, ties in
/// the order in which the attachments were found.
pub open spec fn is_rank_order(sizes: Seq<u64>, order: Seq<usize>) -> bool {
    &&& order.len() == sizes.len()
    &&& forall|i: int| 0 <= i < order.len() ==> order[i] < sizes.len()
    &&& forall|k: usize| k < sizes.len() ==> #[trigger] order.contains(k)
    &&& forall|i: int, j: int|
        0 <= i < j < order.len() ==> ranks_before(sizes, order[i] as int, order[j] as int)
}

/// The line shown for an attachment with a known parent item:
/// `<asset name> (<parent identifier>) - <size> bytes`.
pub open spec fn label_text(a: Attachment, size: u64) -> Seq<char> {
    a.asset_name@ + " ("@ + context_of(a)->0 + ") - "@ + decimal_digits(size as nat) + " bytes"@
}

/// The indices of `order` whose attachment has a parent item, in the order
/// of `order`.
pub open spec fn kept_order(records: Seq<Attachment>, order: Seq<usize>) -> Seq<usize>
    decreases order.len(),
{
    if order.len() == 0 {
        order
    } else {
        let prev = kept_order(records, order.drop_last());
        if has_context(records[order.last() as int]) {
            prev.push(order.last())
        } else {
            prev
        }
    }
}

/// The lines shown for the attachments in `order`, skipping those without a
/// parent item.
pub open spec fn labels_for(records: Seq<Attachment>, sizes: Seq<u64>, order: Seq<usize>) -> Seq<
    Seq<char>,
> {
    kept_order(records, order).map_values(|k: usize| label_text(records[k as int], sizes[k as int]))
}

/// The indices of `sizes` from the largest size to the smallest; equal sizes
/// keep the order in which they were found.
pub fn rank_by_size(sizes: &Vec<u64>) -> (r: Vec<usize>)
    ensures
        is_rank_order(sizes@, r@),
{
    let n = sizes.len();
    let mut r: Vec<usize> = Vec::new();
    let mut k: usize = 0;
    while k < n
        invariant
            n == sizes@.len(),
            k <= n,
            r@.len() == k,
            forall|i: int| 0 <= i < r@.len() ==> r@[i] < k,
            forall|m: usize| m < k ==> #[trigger] r@.contains(m),
            forall|i: int, j: int|
                0 <= i < j < r@.len() ==> ranks_before(sizes@, r@[i] as int, r@[j] as int),
        decreases n - k,
    {
        let sk = sizes[k];
        let mut p: usize = 0;
        while p < r.len() && sizes[r[p]] >= sk
            invariant
                n == sizes@.len(),
                k < n,
                p <= r@.len(),
                forall|i: int| 0 <= i < r@.len() ==> r@[i] < k,
                forall|i: int| 0 <= i < p ==> sizes@[r@[i] as int] >= sk,
            decreases r@.len() - p,
        {
            p = p + 1;
        }
        let ghost old_r = r@;
        r.insert(p, k);
        assert(forall|i: int| p < i < r@.len() ==> r@[i] == old_r[i - 1]);
        assert forall|i: int, j: int| 0 <= i < j < r@.len() implies ranks_before(
            sizes@,
            r@[i] as int,
            r@[j] as int,
        ) by {
            if j == p as int {
                assert(sizes@[r@[i] as int] >= sk);
            } else if i == p as int {
                assert(sizes@[old_r[p as int] as int] < sk);
                if j > p + 1 {
                    assert(ranks_before(sizes@, old_r[p as int] as int, old_r[j - 1] as int));
                }
            } else if i > p as int {
                assert(ranks_before(sizes@, old_r[i - 1] as int, old_r[j - 1] as int));
            } else if j > p as int {
                assert(ranks_before(sizes@, old_r[i] as int, old_r[j - 1] as int));
            }
        }
        assert forall|m: usize| m < k + 1 implies #[trigger] r@.contains(m) by {
            if m == k {
                assert(r@[p as int] == m);
            } else {
                assert(old_r.contains(m as usize));
                let i0 = choose|i: int| 0 <= i < old_r.len() && old_r[i] == m;
                if i0 < p {
                    assert(r@[i0] == old_r[i0]);
                    assert(r@[i0] == m);
                } else {
                    assert(r@[i0 + 1] == m);
                }
            }
        }
        k = k + 1;
    }
    r
}

/// The sizes of the attachment files, `probes[i]` being what was found at
/// `paths[i]`: its size in bytes, or none when the file is missing or cannot
/// be measured. The first missing file is an integrity violation.
pub fn collect_sizes(paths: &Vec<String>, probes: &Vec<Option<u64>>) -> (r: Result<
    Vec<u64>,
    IntegrityViolation,
>)
    requires
        paths@.len() == probes@.len(),
    ensures
        match r {
            Ok(sizes) => sizes@.len() == probes@.len() && forall|i: int|
                0 <= i < probes@.len() ==> probes@[i] == Some(#[trigger] sizes@[i]),
            Err(v) => exists|i: int|
                0 <= i < probes@.len() && probes@[i] is None && v.path@ == paths@[i]@ && forall|
                    j: int,
                | 0 <= j < i ==> #[trigger] probes@[j] is Some,
        },
{
    let mut sizes: Vec<u64> = Vec::new();
    let mut i: usize = 0;
    while i < probes.len()
        invariant
            paths@.len() == probes@.len(),
            i <= probes@.len(),
            sizes@.len() == i,
            forall|j: int| 0 <= j < i ==> probes@[j] == Some(#[trigger] sizes@[j]),
        decreases probes@.len() - i,
    {
        match probes[i] {
            Some(n) => {
                sizes.push(n);
            },
            None => {
                let v = IntegrityViolation { path: paths[i].clone() };
                assert(forall|j: int| 0 <= j < i ==> probes@[j] == Some(sizes@[j]));
                return Err(v);
            },
        }
        i = i + 1;
    }
    Ok(sizes)
}

/// The line shown for `a`, of `size` bytes, when it has a parent item.
pub fn label(a: &Attachment, size: u64) -> (r: Option<String>)
    ensures
        match r {
            Some(s) => has_context(*a) && s@ == label_text(*a, size),
            None => !has_context(*a),
        },
{
    match a.context() {
        Some(c) => {
            let mut s = a.asset_name.as_str().to_owned();
            s.append(" (");
            s.append(c.as_str());
            s.append(") - ");
            let digits = decimal(size);
            s.append(digits.as_str());
            s.append(" bytes");
            Some(s)
        },
        None => None,
    }
}

/// The lines for the attachments at the indices of `order`, in that order,
/// skipping the attachments without a parent item.
pub fn labels_in_order(records: &Vec<Attachment>, sizes: &Vec<u64>, order: &Vec<usize>) -> (r: Vec<
    String,
>)
    requires
        records@.len() == sizes@.len(),
        forall|i: int| 0 <= i < order@.len() ==> order@[i] < records@.len(),
    ensures
        r@.map_values(|s: String| s@) == labels_for(records@, sizes@, order@),
{
    let mut r: Vec<String> = Vec::new();
    let mut i: usize = 0;
    while i < order.len()
        invariant
            records@.len() == sizes@.len(),
            forall|j: int| 0 <= j < order@.len() ==> order@[j] < records@.len(),
            i <= order@.len(),
            r@.map_values(|s: String| s@) == labels_for(records@, sizes@, order@.subrange(0, i as int)),
        decreases order@.len() - i,
    {
        let k = order[i];
        let ghost pre = order@.subrange(0, i as int);
        assert(order@.subrange(0, i + 1) =~= pre.push(k));
        assert(pre.push(k).drop_last() =~= pre);
        let ghost f = |k: usize| label_text(records@[k as int], sizes@[k as int]);
        match label(&records[k], sizes[k]) {
            Some(s) => {
                let ghost before = r@;
                r.push(s);
                assert(kept_order(records@, pre.push(k)) == kept_order(records@, pre).push(k));
                assert(r@.map_values(|s: String| s@) =~= before.map_values(|s: String| s@).push(
                    s@,
                ));
                assert(kept_order(records@, pre.push(k)).map_values(f) =~= kept_order(
                    records@,
                    pre,
                ).map_values(f).push(f(k)));
            },
            None => {
                assert(kept_order(records@, pre.push(k)) == kept_order(records@, pre));
            },
        }
        i = i + 1;
    }
    assert(order@.subrange(0, order@.len() as int) =~= order@);
    r
}

/// The lines for all attachments, `sizes[i]` being the size in bytes of
/// `records[i]`: largest first, equal sizes in the order found, attachments
/// without a parent item left out.
pub fn label_attachments(records: &Vec<Attachment>, sizes: &Vec<u64>) -> (r: Vec<String>)
    requires
        records@.len() == sizes@.len(),
    ensures
        exists|order: Seq<usize>|
            is_rank_order(sizes@, order) && r@.map_values(|s: String| s@) == labels_for(
                records@,
                sizes@,
                order,
            ),
{
    let order = rank_by_size(sizes);
    let r = labels_in_order(records, sizes, &order);
    assert(is_rank_order(sizes@, order@));
    r
}

} // verus!

verus! {

proof fn lemma_kept_order_members(records: Seq<Attachment>, order: Seq<usize>)
    ensures
        forall|i: int|
            0 <= i < kept_order(records, order).len() ==> order.contains(
                #[trigger] kept_order(records, order)[i],
            ) && has_context(records[kept_order(records, order)[i] as int]),
        forall|k: usize|
            order.contains(k) && has_context(records[k as int]) ==> #[trigger] kept_order(
                records,
                order,
            ).contains(k),
    decreases order.len(),
{
    if order.len() > 0 {
        let pre = order.drop_last();
        lemma_kept_order_members(records, pre);
        let kept = kept_order(records, order);
        let kp = kept_order(records, pre);
        assert(kept == if has_context(records[order.last() as int]) {
            kp.push(order.last())
        } else {
            kp
        });
        assert forall|i: int| 0 <= i < kept.len() implies order.contains(#[trigger] kept[i])
            && has_context(records[kept[i] as int]) by {
            if i < kp.len() {
                assert(kept[i] == kp[i]);
                let m = choose|m: int| 0 <= m < pre.len() && pre[m] == kp[i];
                assert(order[m] == kp[i]);
            } else {
                assert(order[order.len() - 1] == kept[i]);
            }
        }
        assert forall|k: usize| order.contains(k) && has_context(records[k as int]) implies #[trigger] kept.contains(k) by {
            let m = choose|m: int| 0 <= m < order.len() && order[m] == k;
            if m < order.len() - 1 {
                assert(pre[m] == k);
                assert(pre.contains(k));
                assert(kp.contains(k));
                let i = choose|i: int| 0 <= i < kp.len() && kp[i] == k;
                assert(kept[i] == k);
            } else {
                assert(order.last() == k);
                assert(kept == kp.push(k));
                assert(kept[kept.len() - 1] == k);
            }
        }
    }
}

proof fn lemma_kept_order_ranked(records: Seq<Attachment>, sizes: Seq<u64>, order: Seq<usize>)
    requires
        forall|i: int, j: int|
            0 <= i < j < order.len() ==> ranks_before(sizes, order[i] as int, order[j] as int),
    ensures
        forall|i: int, j: int|
            0 <= i < j < kept_order(records, order).len() ==> ranks_before(
                sizes,
                kept_order(records, order)[i] as int,
                kept_order(records, order)[j] as int,
            ),
    decreases order.len(),
{
    if order.len() > 0 {
        let pre = order.drop_last();
        lemma_kept_order_ranked(records, sizes, pre);
        lemma_kept_order_members(records, pre);
        let kept = kept_order(records, order);
        let kp = kept_order(records, pre);
        assert forall|i: int, j: int| 0 <= i < j < kept.len() implies ranks_before(
            sizes,
            kept[i] as int,
            kept[j] as int,
        ) by {
            if j < kp.len() {
                assert(kept[i] == kp[i] && kept[j] == kp[j]);
            } else {
                assert(kept[i] == kp[i]);
                assert(pre.contains(kp[i]));
                let m = choose|m: int| 0 <= m < pre.len() && pre[m] == kp[i];
                assert(order[m] == kp[i]);
                assert(kept[j] == order[order.len() - 1]);
            }
        }
    }
}

/// Labelling a ranking gives one line for each attachment that has a parent
/// item and none for the others: the line of the `i`-th kept attachment is
/// its label, every attachment with a parent item is kept exactly once, and
/// the kept attachments run from the largest size to the smallest.
pub proof fn lemma_one_label_per_linked_attachment(
    records: Seq<Attachment>,
    sizes: Seq<u64>,
    order: Seq<usize>,
)
    requires
        records.len() == sizes.len(),
        is_rank_order(sizes, order),
    ensures
        labels_for(records, sizes, order).len() == kept_order(records, order).len(),
        forall|i: int|
            0 <= i < kept_order(records, order).len() ==> has_context(
                records[kept_order(records, order)[i] as int],
            ) && labels_for(records, sizes, order)[i] == label_text(
                records[kept_order(records, order)[i] as int],
                sizes[kept_order(records, order)[i] as int],
            ),
        forall|k: usize|
            k < records.len() && has_context(records[k as int]) ==> kept_order(
                records,
                order,
            ).contains(k),
        forall|i: int, j: int|
            0 <= i < j < kept_order(records, order).len() ==> kept_order(records, order)[i]
                != kept_order(records, order)[j] && sizes[kept_order(records, order)[i] as int]
                >= sizes[kept_order(records, order)[j] as int],
{
    lemma_kept_order_members(records, order);
    lemma_kept_order_ranked(records, sizes, order);
    assert forall|k: usize| k < records.len() && has_context(records[k as int]) implies kept_order(
        records,
        order,
    ).contains(k) by {
        assert(order.contains(k));
    }
    let kept = kept_order(records, order);
    assert forall|i: int, j: int| 0 <= i < j < kept.len() implies kept[i] != kept[j] && sizes[kept[i] as int] >= sizes[kept[j] as int] by {
        assert(ranks_before(sizes, kept[i] as int, kept[j] as int));
    }
}

/// An attachment with no pull request, issue or issue comment is never
/// among the labelled ones.
pub proof fn lemma_unlinked_attachment_skipped(
    records: Seq<Attachment>,
    sizes: Seq<u64>,
    order: Seq<usize>,
    k: usize,
)
    requires
        records.len() == sizes.len(),
        is_rank_order(sizes, order),
        k < records.len(),
        !has_context(records[k as int]),
    ensures
        !kept_order(records, order).contains(k),
{
    lemma_kept_order_members(records, order);
    if kept_order(records, order).contains(k) {
        let i = choose|i: int|
            0 <= i < kept_order(records, order).len() && kept_order(records, order)[i] == k;
        assert(has_context(records[kept_order(records, order)[i] as int]));
    }
}

/// Two labelled attachments of the same size are listed in the order in
/// which they were found.
pub proof fn lemma_equal_sizes_keep_found_order(
    records: Seq<Attachment>,
    sizes: Seq<u64>,
    order: Seq<usize>,
    i: int,
    j: int,
)
    requires
        records.len() == sizes.len(),
        is_rank_order(sizes, order),
        0 <= i < j < kept_order(records, order).len(),
        sizes[kept_order(records, order)[i] as int] == sizes[kept_order(records, order)[j] as int],
    ensures
        kept_order(records, order)[i] < kept_order(records, order)[j],
{
    lemma_kept_order_ranked(records, sizes, order);
    let kept = kept_order(records, order);
    assert(ranks_before(sizes, kept[i] as int, kept[j] as int));
}

} // verus!

verus! {

proof fn lemma_rank_position(sizes: Seq<u64>, o1: Seq<usize>, o2: Seq<usize>, i: int)
    requires
        is_rank_order(sizes, o1),
        is_rank_order(sizes, o2),
        0 <= i < o1.len(),
        forall|j: int| 0 <= j < i ==> o1[j] == o2[j],
        ranks_before(sizes, o1[i] as int, o2[i] as int) || o1[i] == o2[i],
    ensures
        o1[i] == o2[i],
{
    let a = o1[i];
    let b = o2[i];
    if a != b {
        assert(o2.contains(a));
        let m = choose|m: int| 0 <= m < o2.len() && o2[m] == a;
        if m < i {
            assert(o1[m] == a);
            assert(ranks_before(sizes, o1[m] as int, o1[i] as int));
        } else {
            assert(ranks_before(sizes, o2[i] as int, o2[m] as int));
        }
    }
}

/// Only one order meets `is_rank_order` for given sizes: the ranking, and
/// so the labelled lines, are fixed by the sizes alone.
pub proof fn lemma_rank_order_unique(sizes: Seq<u64>, o1: Seq<usize>, o2: Seq<usize>)
    requires
        is_rank_order(sizes, o1),
        is_rank_order(sizes, o2),
    ensures
        o1 == o2,
{
    assert forall|i: int| 0 <= i < o1.len() implies o1[i] == o2[i] by {
        lemma_rank_prefix(sizes, o1, o2, i + 1);
    }
    assert(o1 =~= o2);
}

proof fn lemma_rank_prefix(sizes: Seq<u64>, o1: Seq<usize>, o2: Seq<usize>, n: int)
    requires
        is_rank_order(sizes, o1),
        is_rank_order(sizes, o2),
        0 <= n <= o1.len(),
    ensures
        forall|j: int| 0 <= j < n ==> o1[j] == o2[j],
    decreases n,
{
    if n > 0 {
        let i = n - 1;
        lemma_rank_prefix(sizes, o1, o2, i);
        if ranks_before(sizes, o1[i] as int, o2[i] as int) || o1[i] == o2[i] {
            lemma_rank_position(sizes, o1, o2, i);
        } else {
            lemma_rank_position(sizes, o2, o1, i);
        }
    }
}

} // verus!
