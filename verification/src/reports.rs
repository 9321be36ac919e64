use vstd::prelude::*;
use crate::codec::clone_bytes;
use crate::product::{Catalog, CatalogProduct, ExportedProduct};

verus! {

/// The skus at the given positions of the vendor list, in order.
pub open spec fn vendor_skus_at(vendor: Seq<ExportedProduct>, idxs: Seq<usize>) -> Seq<Seq<u8>>
    decreases idxs.len(),
{
    if idxs.len() == 0 {
        Seq::empty()
    } else {
        vendor_skus_at(vendor, idxs.drop_last()).push(vendor[idxs.last() as int].sku@)
    }
}

/// Resolves bucket positions to the vendor skus they name.
pub fn bucket_skus(vendor: &Vec<ExportedProduct>, idxs: &Vec<usize>) -> (r: Vec<Vec<u8>>)
    requires
        forall|t: int| 0 <= t < idxs@.len() ==> (#[trigger] idxs@[t]) < vendor@.len(),
    ensures
        r@.map_values(|s: Vec<u8>| s@) == vendor_skus_at(vendor@, idxs@),
{
    let mut r: Vec<Vec<u8>> = Vec::new();
    let mut t: usize = 0;
    while t < idxs.len()
        invariant
            forall|q: int| 0 <= q < idxs@.len() ==> (#[trigger] idxs@[q]) < vendor@.len(),
            t <= idxs@.len(),
            r@.map_values(|s: Vec<u8>| s@) == vendor_skus_at(vendor@, idxs@.subrange(0, t as int)),
        decreases idxs@.len() - t,
    {
        proof {
            assert(idxs@.subrange(0, t + 1).drop_last() =~= idxs@.subrange(0, t as int));
        }
        r.push(clone_bytes(&vendor[idxs[t]].sku));
        proof {
            assert(r@.map_values(|s: Vec<u8>| s@) =~= vendor_skus_at(
                vendor@,
                idxs@.subrange(0, t + 1),
            ));
        }
        t = t + 1;
    }
    proof {
        assert(idxs@.subrange(0, idxs@.len() as int) =~= idxs@);
    }
    r
}

/// The skus at the given positions of the catalog, in order.
pub open spec fn catalog_skus_at(prods: Seq<CatalogProduct>, idxs: Seq<usize>) -> Seq<Seq<u8>>
    decreases idxs.len(),
{
    if idxs.len() == 0 {
        Seq::empty()
    } else {
        catalog_skus_at(prods, idxs.drop_last()).push(prods[idxs.last() as int].sku@)
    }
}

/// Resolves a conflict group's positions to the catalog skus they name.
pub fn group_skus(catalog: &Catalog, members: &Vec<usize>) -> (r: Vec<Vec<u8>>)
    requires
        forall|t: int| 0 <= t < members@.len() ==> (#[trigger] members@[t]) < catalog.products@.len(),
    ensures
        r@.map_values(|s: Vec<u8>| s@) == catalog_skus_at(catalog.products@, members@),
{
    let mut r: Vec<Vec<u8>> = Vec::new();
    let mut t: usize = 0;
    while t < members.len()
        invariant
            forall|q: int|
                0 <= q < members@.len() ==> (#[trigger] members@[q]) < catalog.products@.len(),
            t <= members@.len(),
            r@.map_values(|s: Vec<u8>| s@) == catalog_skus_at(
                catalog.products@,
                members@.subrange(0, t as int),
            ),
        decreases members@.len() - t,
    {
        proof {
            assert(members@.subrange(0, t + 1).drop_last() =~= members@.subrange(0, t as int));
        }
        r.push(clone_bytes(&catalog.products[members[t]].sku));
        proof {
            assert(r@.map_values(|s: Vec<u8>| s@) =~= catalog_skus_at(
                catalog.products@,
                members@.subrange(0, t + 1),
            ));
        }
        t = t + 1;
    }
    proof {
        assert(members@.subrange(0, members@.len() as int) =~= members@);
    }
    r
}

/// The report body: each name on a line of its own.
pub open spec fn lines_of(names: Seq<Seq<u8>>) -> Seq<u8>
    decreases names.len(),
{
    if names.len() == 0 {
        Seq::empty()
    } else {
        lines_of(names.drop_last()) + names.last() + seq![10u8]
    }
}

/// Renders names as newline-terminated lines.
pub fn report_lines(names: &Vec<Vec<u8>>) -> (r: Vec<u8>)
    ensures
        r@ == lines_of(names@.map_values(|s: Vec<u8>| s@)),
{
    let ghost nv = names@.map_values(|s: Vec<u8>| s@);
    let mut r: Vec<u8> = Vec::new();
    let mut t: usize = 0;
    while t < names.len()
        invariant
            nv == names@.map_values(|s: Vec<u8>| s@),
            t <= names@.len(),
            r@ == lines_of(nv.subrange(0, t as int)),
        decreases names@.len() - t,
    {
        proof {
            assert(nv.subrange(0, t + 1).drop_last() =~= nv.subrange(0, t as int));
            assert(nv.subrange(0, t + 1).last() == names@[t as int]@);
        }
        let mut line = clone_bytes(&names[t]);
        r.append(&mut line);
        r.push(10);
        proof {
            assert(r@ =~= lines_of(nv.subrange(0, t + 1)));
        }
        t = t + 1;
    }
    proof {
        assert(nv.subrange(0, nv.len() as int) =~= nv);
    }
    r
}

} // verus!
