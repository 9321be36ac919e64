use vstd::prelude::*;
use crate::codec::Barcode;
use crate::decimal::{DeltaPolicy, delta_exceeds, delta_exceeds_spec};
use crate::product::{BarcodeIndex, Catalog, CatalogProduct, ExportedProduct, IndexEntry,
    carrier_at, entry_ok, group_has};

verus! {

/// Where a vendor product lands: absent from the catalog, matched but
/// priced suspiciously far off, or cleanly matched.
#[derive(Clone, Copy, Debug, PartialEq, Eq, Structural)]
pub enum Disposition {
    NewToCatalog,
    NeedsReview,
    Matched,
}

/// Whether the catalog representative and the vendor listing differ enough
/// to need a human: the costs drift beyond the policy, or, when the vendor
/// supplies a retail price, the list price drifts beyond the policy.
pub open spec fn review_needed_spec(rep: CatalogProduct, v: ExportedProduct, pol: DeltaPolicy) -> bool {
    ||| delta_exceeds_spec(rep.cost, v.cost, pol)
    ||| (v.retail is Some && delta_exceeds_spec(rep.list_price, v.retail->0, pol))
}

/// The disposition of one vendor product: new when its barcode has no
/// entry; otherwise needs-review or matched by the price-delta policy
/// against the barcode's representative.
pub open spec fn disposition_spec(
    v: ExportedProduct,
    prods: Seq<CatalogProduct>,
    idx: BarcodeIndex,
    pol: DeltaPolicy,
) -> Disposition {
    if !idx.has_code(v.upc@) {
        Disposition::NewToCatalog
    } else {
        let m = choose|m: int| 0 <= m < idx.entries@.len() && idx.entries@[m].code@ == v.upc@;
        if review_needed_spec(prods[idx.entries@[m].rep as int], v, pol) {
            Disposition::NeedsReview
        } else {
            Disposition::Matched
        }
    }
}

/// Decides the disposition of one vendor product.
pub fn disposition(
    v: &ExportedProduct,
    catalog: &Catalog,
    idx: &BarcodeIndex,
    pol: &DeltaPolicy,
) -> (r: Disposition)
    requires
        catalog.wf(),
        idx.wf(catalog.products@),
        v.wf(),
        pol.wf(),
    ensures
        r == disposition_spec(*v, catalog.products@, *idx, *pol),
{
    let found = idx.lookup(&v.upc);
    match found {
        None => Disposition::NewToCatalog,
        Some(p) => {
            proof {
                assert(idx.has_code(v.upc@));
                let m = choose|m: int|
                    0 <= m < idx.entries@.len() && idx.entries@[m].code@ == v.upc@;
                assert(m == p as int);
                assert(entry_ok(
                    catalog.products@,
                    idx.entries@[p as int],
                    catalog.products@.len() as int,
                    0,
                ));
            }
            let rep: usize = idx.entries[p].rep;
            proof {
                assert(carrier_at(
                    catalog.products@,
                    idx.entries@[p as int].code@,
                    rep as int,
                    catalog.products@.len() as int,
                    0,
                ));
            }
            let rep_prod = &catalog.products[rep];
            let over = if delta_exceeds(&rep_prod.cost, &v.cost, pol) {
                true
            } else {
                match &v.retail {
                    Some(ret) => delta_exceeds(&rep_prod.list_price, ret, pol),
                    None => false,
                }
            };
            if over {
                Disposition::NeedsReview
            } else {
                Disposition::Matched
            }
        },
    }
}

/// The positions (in vendor-list order) of the first `n` vendor products
/// whose disposition is `d`.
pub open spec fn bucket_spec(
    vendor: Seq<ExportedProduct>,
    prods: Seq<CatalogProduct>,
    idx: BarcodeIndex,
    pol: DeltaPolicy,
    d: Disposition,
    n: int,
) -> Seq<usize>
    decreases n,
{
    if n <= 0 {
        Seq::empty()
    } else {
        let pre = bucket_spec(vendor, prods, idx, pol, d, n - 1);
        if disposition_spec(vendor[n - 1], prods, idx, pol) == d {
            pre.push((n - 1) as usize)
        } else {
            pre
        }
    }
}

/// One barcode's conflict group, reported when it is non-empty.
pub struct DuplicateGroup {
    pub code: Barcode,
    pub members: Vec<usize>,
}

/// The conflict reports among the first `n` index entries: the code and
/// group of every entry whose group is non-empty, in index order.
pub open spec fn dup_groups_spec(entries: Seq<IndexEntry>, n: int) -> Seq<(Seq<u8>, Seq<usize>)>
    decreases n,
{
    if n <= 0 {
        Seq::empty()
    } else {
        let pre = dup_groups_spec(entries, n - 1);
        if entries[n - 1].group@.len() > 0 {
            pre.push((entries[n - 1].code@, entries[n - 1].group@))
        } else {
            pre
        }
    }
}

/// The four output partitions of a reconciliation run. The three per-item
/// buckets hold positions into the vendor list; the duplicates bucket is a
/// catalog-level report.
pub struct Classification {
    pub duplicates: Vec<DuplicateGroup>,
    pub new_items: Vec<usize>,
    pub needs_review: Vec<usize>,
    pub matched: Vec<usize>,
}

/// Classifies every vendor product into new, needs-review or matched, and
/// gathers every barcode with a non-empty conflict group into the
/// duplicates report.
pub fn classify(
    vendor: &Vec<ExportedProduct>,
    catalog: &Catalog,
    idx: &BarcodeIndex,
    pol: &DeltaPolicy,
) -> (r: Classification)
    requires
        catalog.wf(),
        idx.wf(catalog.products@),
        pol.wf(),
        forall|k: int| 0 <= k < vendor@.len() ==> (#[trigger] vendor@[k]).wf(),
    ensures
        r.new_items@ == bucket_spec(
            vendor@,
            catalog.products@,
            *idx,
            *pol,
            Disposition::NewToCatalog,
            vendor@.len() as int,
        ),
        r.needs_review@ == bucket_spec(
            vendor@,
            catalog.products@,
            *idx,
            *pol,
            Disposition::NeedsReview,
            vendor@.len() as int,
        ),
        r.matched@ == bucket_spec(
            vendor@,
            catalog.products@,
            *idx,
            *pol,
            Disposition::Matched,
            vendor@.len() as int,
        ),
        r.duplicates@.map_values(|g: DuplicateGroup| (g.code@, g.members@)) == dup_groups_spec(
            idx.entries@,
            idx.entries@.len() as int,
        ),
        // the three per-item buckets are a total partition of the vendor list
        r.new_items@.len() + r.needs_review@.len() + r.matched@.len() == vendor@.len(),
        forall|x: usize|
            !(group_has(r.new_items@, x as int) && group_has(r.needs_review@, x as int)),
        forall|x: usize| !(group_has(r.new_items@, x as int) && group_has(r.matched@, x as int)),
        forall|x: usize| !(group_has(r.needs_review@, x as int) && group_has(r.matched@, x as int)),
{
    let mut new_items: Vec<usize> = Vec::new();
    let mut needs_review: Vec<usize> = Vec::new();
    let mut matched: Vec<usize> = Vec::new();
    let mut k: usize = 0;
    while k < vendor.len()
        invariant
            catalog.wf(),
            idx.wf(catalog.products@),
            pol.wf(),
            forall|t: int| 0 <= t < vendor@.len() ==> (#[trigger] vendor@[t]).wf(),
            k <= vendor@.len(),
            new_items@ == bucket_spec(
                vendor@,
                catalog.products@,
                *idx,
                *pol,
                Disposition::NewToCatalog,
                k as int,
            ),
            needs_review@ == bucket_spec(
                vendor@,
                catalog.products@,
                *idx,
                *pol,
                Disposition::NeedsReview,
                k as int,
            ),
            matched@ == bucket_spec(
                vendor@,
                catalog.products@,
                *idx,
                *pol,
                Disposition::Matched,
                k as int,
            ),
        decreases vendor@.len() - k,
    {
        let d = disposition(&vendor[k], catalog, idx, pol);
        match d {
            Disposition::NewToCatalog => new_items.push(k),
            Disposition::NeedsReview => needs_review.push(k),
            Disposition::Matched => matched.push(k),
        }
        k = k + 1;
    }
    let mut duplicates: Vec<DuplicateGroup> = Vec::new();
    let mut m: usize = 0;
    while m < idx.entries.len()
        invariant
            m <= idx.entries@.len(),
            duplicates@.map_values(|g: DuplicateGroup| (g.code@, g.members@)) == dup_groups_spec(
                idx.entries@,
                m as int,
            ),
        decreases idx.entries@.len() - m,
    {
        let entry = &idx.entries[m];
        let ghost before = duplicates@;
        if entry.group.len() > 0 {
            let g = DuplicateGroup {
                code: entry.code.clone(),
                members: crate::product::clone_group(&entry.group),
            };
            duplicates.push(g);
            proof {
                assert(duplicates@.map_values(|g: DuplicateGroup| (g.code@, g.members@)) =~= before
                    .map_values(|g: DuplicateGroup| (g.code@, g.members@)).push(
                    (idx.entries@[m as int].code@, idx.entries@[m as int].group@),
                ));
            }
        }
        m = m + 1;
    }
    proof {
        let vl = vendor@.len() as int;
        lemma_classification_total(vendor@, catalog.products@, *idx, *pol, vl);
        assert forall|x: usize|
            !(group_has(new_items@, x as int) && group_has(needs_review@, x as int)) && !(group_has(
            new_items@,
            x as int,
        ) && group_has(matched@, x as int)) && !(group_has(needs_review@, x as int) && group_has(
            matched@,
            x as int,
        )) by {
            lemma_bucket_membership(
                vendor@,
                catalog.products@,
                *idx,
                *pol,
                Disposition::NewToCatalog,
                vl,
                x,
            );
            lemma_bucket_membership(
                vendor@,
                catalog.products@,
                *idx,
                *pol,
                Disposition::NeedsReview,
                vl,
                x,
            );
            lemma_bucket_membership(
                vendor@,
                catalog.products@,
                *idx,
                *pol,
                Disposition::Matched,
                vl,
                x,
            );
        }
    }
    Classification { duplicates, new_items, needs_review, matched }
}

/// Classification is a total partition: the three per-item buckets
/// together hold exactly one position for each vendor product.
pub proof fn lemma_classification_total(
    vendor: Seq<ExportedProduct>,
    prods: Seq<CatalogProduct>,
    idx: BarcodeIndex,
    pol: DeltaPolicy,
    n: int,
)
    requires
        0 <= n <= vendor.len(),
    ensures
        bucket_spec(vendor, prods, idx, pol, Disposition::NewToCatalog, n).len() + bucket_spec(
            vendor,
            prods,
            idx,
            pol,
            Disposition::NeedsReview,
            n,
        ).len() + bucket_spec(vendor, prods, idx, pol, Disposition::Matched, n).len() == n,
    decreases n,
{
    if n > 0 {
        lemma_classification_total(vendor, prods, idx, pol, n - 1);
    }
}

/// A position stands in a bucket exactly when it is a vendor position with
/// that disposition; so no vendor product appears in more than one bucket.
pub proof fn lemma_bucket_membership(
    vendor: Seq<ExportedProduct>,
    prods: Seq<CatalogProduct>,
    idx: BarcodeIndex,
    pol: DeltaPolicy,
    d: Disposition,
    n: int,
    x: usize,
)
    requires
        0 <= n <= vendor.len(),
        n <= usize::MAX,
    ensures
        group_has(bucket_spec(vendor, prods, idx, pol, d, n), x as int) <==> (x < n
            && disposition_spec(vendor[x as int], prods, idx, pol) == d),
    decreases n,
{
    if n > 0 {
        lemma_bucket_membership(vendor, prods, idx, pol, d, n - 1, x);
        let pre = bucket_spec(vendor, prods, idx, pol, d, n - 1);
        let cur = bucket_spec(vendor, prods, idx, pol, d, n);
        if disposition_spec(vendor[n - 1], prods, idx, pol) == d {
            assert(cur == pre.push((n - 1) as usize));
            if group_has(cur, x as int) {
                let m = choose|m: int| 0 <= m < cur.len() && cur[m] == x as int;
                if m < pre.len() {
                    assert(group_has(pre, x as int));
                } else {
                    assert(x == n - 1);
                }
            }
            if x < n && disposition_spec(vendor[x as int], prods, idx, pol) == d {
                if x < n - 1 {
                    let m = choose|m: int| 0 <= m < pre.len() && pre[m] == x as int;
                    assert(cur[m] == x as int);
                } else {
                    assert(cur[cur.len() - 1] == x as int);
                }
            }
        } else {
            assert(cur == pre);
        }
    }
}

} // verus!
