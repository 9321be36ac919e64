use vstd::prelude::*;
use crate::catalog::{ingest, ingest_spec, ParseError, RowError};
use crate::classify::{bucket_spec, classify, dup_groups_spec, Classification, Disposition, DuplicateGroup};
use crate::decimal::DeltaPolicy;
use crate::product::{group_has, map_upcs, BarcodeIndex, Catalog, CatalogProduct, ExportedProduct,
    ProductView};

verus! {

/// Everything one reconciliation run produces: the catalog, its barcode
/// index, and the four output partitions.
pub struct Reconciliation {
    pub catalog: Catalog,
    pub index: BarcodeIndex,
    pub partitions: Classification,
}

/// One whole reconciliation: build the catalog from the two legacy
/// sources, index its barcodes, and classify every vendor product. Any
/// ingestion error aborts the run before classification begins: a partial
/// catalog is never used. Classification itself never fails.
pub fn reconcile(
    item_rows: &Vec<Vec<u8>>,
    posted_rows: &Vec<Vec<u8>>,
    vendor: &Vec<ExportedProduct>,
    policy: &DeltaPolicy,
) -> (r: Result<Reconciliation, ParseError>)
    requires
        item_rows@.len() < usize::MAX,
        posted_rows@.len() < usize::MAX,
        policy.wf(),
        forall|k: int| 0 <= k < vendor@.len() ==> (#[trigger] vendor@[k]).wf(),
    ensures
        match r {
            Ok(run) => {
                &&& run.catalog.wf()
                &&& ingest_spec(
                    item_rows@.map_values(|l: Vec<u8>| l@),
                    posted_rows@.map_values(|l: Vec<u8>| l@),
                ) == Ok::<Seq<ProductView>, RowError>(
                    run.catalog.products@.map_values(|p: CatalogProduct| p@),
                )
                &&& run.index.wf(run.catalog.products@)
                &&& run.partitions.new_items@ == bucket_spec(
                    vendor@,
                    run.catalog.products@,
                    run.index,
                    *policy,
                    Disposition::NewToCatalog,
                    vendor@.len() as int,
                )
                &&& run.partitions.needs_review@ == bucket_spec(
                    vendor@,
                    run.catalog.products@,
                    run.index,
                    *policy,
                    Disposition::NeedsReview,
                    vendor@.len() as int,
                )
                &&& run.partitions.matched@ == bucket_spec(
                    vendor@,
                    run.catalog.products@,
                    run.index,
                    *policy,
                    Disposition::Matched,
                    vendor@.len() as int,
                )
                &&& run.partitions.duplicates@.map_values(
                    |g: DuplicateGroup| (g.code@, g.members@),
                ) == dup_groups_spec(run.index.entries@, run.index.entries@.len() as int)
                &&& run.partitions.new_items@.len() + run.partitions.needs_review@.len()
                    + run.partitions.matched@.len() == vendor@.len()
                &&& forall|x: usize|
                    !(group_has(run.partitions.new_items@, x as int) && group_has(
                        run.partitions.needs_review@,
                        x as int,
                    ))
                &&& forall|x: usize|
                    !(group_has(run.partitions.new_items@, x as int) && group_has(
                        run.partitions.matched@,
                        x as int,
                    ))
                &&& forall|x: usize|
                    !(group_has(run.partitions.needs_review@, x as int) && group_has(
                        run.partitions.matched@,
                        x as int,
                    ))
            },
            Err(e) => ingest_spec(
                item_rows@.map_values(|l: Vec<u8>| l@),
                posted_rows@.map_values(|l: Vec<u8>| l@),
            ) == Err::<Seq<ProductView>, RowError>(e@),
        },
{
    let catalog = match ingest(item_rows, posted_rows) {
        Ok(cat) => cat,
        Err(e) => {
            return Err(e);
        },
    };
    let index = map_upcs(&catalog);
    let partitions = classify(vendor, &catalog, &index, policy);
    Ok(Reconciliation { catalog, index, partitions })
}

} // verus!
