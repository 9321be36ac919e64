use vstd::prelude::*;
use vstd::pervasive::VecAdditionalExecFns;
use crate::codec::{Barcode, bytes_equal, clone_bytes};
use crate::decimal::Decimal;

verus! {

/// A calendar date, held as plain year, month and day numbers.
#[derive(Clone, Copy, Debug, PartialEq, Eq, Structural)]
pub struct CalendarDate {
    pub year: u32,
    pub month: u32,
    pub day: u32,
}

/// A reconciled inventory record built from the two legacy files. The
/// barcode order is meaningful: the last-added barcode is the primary one.
pub struct CatalogProduct {
    pub sku: Vec<u8>,
    pub description: Vec<u8>,
    pub barcodes: Vec<Barcode>,
    pub list_price: Decimal,
    pub cost: Decimal,
    pub stock: Decimal,
    pub weight: Decimal,
    pub last_sold: Option<CalendarDate>,
}

impl CatalogProduct {
    pub open spec fn wf(&self) -> bool {
        &&& forall|t: int| 0 <= t < self.barcodes@.len() ==> (#[trigger] self.barcodes@[t]).wf()
        &&& self.list_price.wf()
        &&& self.cost.wf()
        &&& self.stock.wf()
        &&& self.weight.wf()
    }
}

/// A product listing exported by a vendor, immutable once parsed.
pub struct ExportedProduct {
    pub sku: Vec<u8>,
    pub upc: Barcode,
    pub desc: Vec<u8>,
    pub weight: Option<Decimal>,
    pub cost: Decimal,
    pub retail: Option<Decimal>,
}

impl ExportedProduct {
    pub open spec fn wf(&self) -> bool {
        &&& self.upc.wf()
        &&& self.cost.wf()
        &&& (self.weight is Some ==> self.weight->0.wf())
        &&& (self.retail is Some ==> self.retail->0.wf())
    }
}

/// The catalog: one record per sku.
pub struct Catalog {
    pub products: Vec<CatalogProduct>,
}

impl Catalog {
    pub open spec fn wf(&self) -> bool {
        &&& forall|k: int| 0 <= k < self.products@.len() ==> (#[trigger] self.products@[k]).wf()
        &&& forall|k1: int, k2: int|
            0 <= k1 < k2 < self.products@.len() ==> self.products@[k1].sku@
                != self.products@[k2].sku@
    }
}

/// Whether one of the first `jb` barcodes of `p` is `c`.
pub open spec fn carries_upto(p: CatalogProduct, c: Seq<u8>, jb: int) -> bool {
    exists|t: int| 0 <= t < jb && p.barcodes@[t]@ == c
}

/// Whether `p` carries barcode `c`.
pub open spec fn carries(p: CatalogProduct, c: Seq<u8>) -> bool {
    carries_upto(p, c, p.barcodes@.len() as int)
}

/// Whether product `k` carries `c` within the part of the catalog walked
/// so far: all barcodes of products before `i`, and the first `j` barcodes
/// of product `i`.
pub open spec fn carrier_at(prods: Seq<CatalogProduct>, c: Seq<u8>, k: int, i: int, j: int) -> bool {
    ||| (0 <= k < i && carries(prods[k], c))
    ||| (k == i && 0 <= i < prods.len() && carries_upto(prods[i], c, j))
}

pub open spec fn some_carrier(prods: Seq<CatalogProduct>, c: Seq<u8>, i: int, j: int) -> bool {
    exists|k: int| carrier_at(prods, c, k, i, j)
}

/// Whether two distinct products both carry `c` within the walked part.
pub open spec fn two_carriers(prods: Seq<CatalogProduct>, c: Seq<u8>, i: int, j: int) -> bool {
    exists|k1: int, k2: int|
        #![trigger carrier_at(prods, c, k1, i, j), carrier_at(prods, c, k2, i, j)]
        k1 < k2 && carrier_at(prods, c, k1, i, j) && carrier_at(prods, c, k2, i, j)
}

pub open spec fn group_has(g: Seq<usize>, k: int) -> bool {
    exists|m: int| 0 <= m < g.len() && g[m] == k
}

/// One slot of the barcode index: the conflict group and the
/// representative for one barcode, both as positions in the catalog.
pub struct IndexEntry {
    pub code: Barcode,
    pub group: Vec<usize>,
    pub rep: usize,
}

/// What holds of an entry once products `0..i` (plus the first `j`
/// barcodes of product `i`) have been walked: the representative is the
/// most recently walked carrier of the code; the conflict group is empty
/// until a second carrier appears and from then on holds every carrier;
/// and everything in the group carries the code.
pub open spec fn entry_ok(prods: Seq<CatalogProduct>, e: IndexEntry, i: int, j: int) -> bool {
    &&& carrier_at(prods, e.code@, e.rep as int, i, j)
    &&& forall|k: int| e.rep < k ==> !carrier_at(prods, e.code@, k, i, j)
    &&& (two_carriers(prods, e.code@, i, j) ==> forall|k: int|
        carrier_at(prods, e.code@, k, i, j) ==> group_has(e.group@, k))
    &&& (!two_carriers(prods, e.code@, i, j) ==> e.group@.len() == 0)
    &&& forall|m: int|
        0 <= m < e.group@.len() ==> carrier_at(prods, e.code@, e.group@[m] as int, i, j)
}

/// The barcode index over a catalog.
pub struct BarcodeIndex {
    pub entries: Vec<IndexEntry>,
}

impl BarcodeIndex {
    /// No two entries are for the same barcode.
    pub open spec fn distinct_codes(&self) -> bool {
        forall|m1: int, m2: int|
            0 <= m1 < m2 < self.entries@.len() ==> self.entries@[m1].code@
                != self.entries@[m2].code@
    }

    /// Whether some entry is for barcode `c`.
    pub open spec fn has_code(&self, c: Seq<u8>) -> bool {
        exists|m: int| 0 <= m < self.entries@.len() && self.entries@[m].code@ == c
    }

    /// What the whole index says of a walked catalog `prods`: entries are
    /// distinct, each is in its settled state, and every barcode of every
    /// product has an entry.
    pub open spec fn wf(&self, prods: Seq<CatalogProduct>) -> bool {
        &&& self.distinct_codes()
        &&& forall|m: int|
            0 <= m < self.entries@.len() ==> entry_ok(
                prods,
                #[trigger] self.entries@[m],
                prods.len() as int,
                0,
            )
        &&& forall|k: int, t: int|
            0 <= k < prods.len() && 0 <= t < prods[k].barcodes@.len() ==> self.has_code(
                #[trigger] prods[k].barcodes@[t]@,
            )
    }
}

/// Finds the entry for `code`, if any.
fn find_entry(entries: &Vec<IndexEntry>, code: &Barcode) -> (r: Option<usize>)
    ensures
        match r {
            Some(p) => p < entries@.len() && entries@[p as int].code@ == code@,
            None => forall|m: int| 0 <= m < entries@.len() ==> entries@[m].code@ != code@,
        },
{
    let mut m: usize = 0;
    while m < entries.len()
        invariant
            m <= entries@.len(),
            forall|t: int| 0 <= t < m ==> entries@[t].code@ != code@,
        decreases entries@.len() - m,
    {
        if entries[m].code.same_code(code) {
            return Some(m);
        }
        m = m + 1;
    }
    None
}

/// Copies a vector of catalog positions.
pub fn clone_group(v: &Vec<usize>) -> (r: Vec<usize>)
    ensures
        r@ == v@,
{
    let mut r: Vec<usize> = Vec::new();
    let mut i: usize = 0;
    while i < v.len()
        invariant
            i <= v@.len(),
            r@ == v@.subrange(0, i as int),
        decreases v@.len() - i,
    {
        r.push(v[i]);
        i = i + 1;
    }
    proof {
        assert(r@ =~= v@);
    }
    r
}

proof fn lemma_upto_step(p: CatalogProduct, c: Seq<u8>, j: int)
    requires
        0 <= j < p.barcodes@.len(),
    ensures
        carries_upto(p, c, j + 1) <==> (carries_upto(p, c, j) || p.barcodes@[j]@ == c),
{
    if carries_upto(p, c, j + 1) {
        let t = choose|t: int| 0 <= t < j + 1 && p.barcodes@[t]@ == c;
        if t < j {
            assert(carries_upto(p, c, j));
        } else {
            assert(p.barcodes@[j]@ == c);
        }
    }
    if carries_upto(p, c, j) || p.barcodes@[j]@ == c {
        if carries_upto(p, c, j) {
            let t = choose|t: int| 0 <= t < j && p.barcodes@[t]@ == c;
            assert(0 <= t < j + 1 && p.barcodes@[t]@ == c);
        } else {
            assert(0 <= j < j + 1 && p.barcodes@[j]@ == c);
        }
    }
}

proof fn lemma_carrier_step(prods: Seq<CatalogProduct>, c: Seq<u8>, k: int, i: int, j: int)
    requires
        0 <= i < prods.len(),
        0 <= j < prods[i].barcodes@.len(),
    ensures
        carrier_at(prods, c, k, i, j + 1) <==> (carrier_at(prods, c, k, i, j) || (k == i
            && prods[i].barcodes@[j]@ == c)),
{
    lemma_upto_step(prods[i], c, j);
}

proof fn lemma_carrier_row_end(prods: Seq<CatalogProduct>, c: Seq<u8>, k: int, i: int)
    requires
        0 <= i < prods.len(),
    ensures
        carrier_at(prods, c, k, i + 1, 0) <==> carrier_at(
            prods,
            c,
            k,
            i,
            prods[i].barcodes@.len() as int,
        ),
{
}

/// Builds the barcode index of a catalog: every barcode of every product
/// gains an entry; an entry's representative is the most recently walked
/// product carrying that barcode; and whenever two products with different
/// skus share a barcode, every product carrying it is appended to its
/// conflict group, which stays empty until such a collision occurs.
pub fn map_upcs(catalog: &Catalog) -> (idx: BarcodeIndex)
    requires
        catalog.wf(),
    ensures
        idx.wf(catalog.products@),
{
    let prods_len: usize = catalog.products.len();
    let mut entries: Vec<IndexEntry> = Vec::new();
    let mut i: usize = 0;
    while i < prods_len
        invariant
            catalog.wf(),
            prods_len == catalog.products@.len(),
            i <= prods_len,
            forall|m1: int, m2: int|
                0 <= m1 < m2 < entries@.len() ==> entries@[m1].code@ != entries@[m2].code@,
            forall|m: int|
                0 <= m < entries@.len() ==> entry_ok(
                    catalog.products@,
                    #[trigger] entries@[m],
                    i as int,
                    0,
                ),
            forall|m: int| 0 <= m < entries@.len() ==> entries@[m].rep < prods_len,
            forall|k: int, t: int|
                0 <= k < prods_len && 0 <= t < catalog.products@[k].barcodes@.len() && carrier_at(
                    catalog.products@,
                    catalog.products@[k].barcodes@[t]@,
                    k,
                    i as int,
                    0,
                ) ==> exists|m: int|
                    0 <= m < entries@.len() && entries@[m].code@ == catalog.products@[k].barcodes@[t]@,
        decreases prods_len - i,
    {
        let row_len: usize = catalog.products[i].barcodes.len();
        let mut j: usize = 0;
        while j < row_len
            invariant
                catalog.wf(),
                prods_len == catalog.products@.len(),
                i < prods_len,
                row_len == catalog.products@[i as int].barcodes@.len(),
                j <= row_len,
                forall|m1: int, m2: int|
                    0 <= m1 < m2 < entries@.len() ==> entries@[m1].code@ != entries@[m2].code@,
                forall|m: int|
                    0 <= m < entries@.len() ==> entry_ok(
                        catalog.products@,
                        #[trigger] entries@[m],
                        i as int,
                        j as int,
                    ),
                forall|m: int| 0 <= m < entries@.len() ==> entries@[m].rep < prods_len,
                forall|k: int, t: int|
                    0 <= k < prods_len && 0 <= t < catalog.products@[k].barcodes@.len()
                        && carrier_at(
                        catalog.products@,
                        catalog.products@[k].barcodes@[t]@,
                        k,
                        i as int,
                        j as int,
                    ) ==> exists|m: int|
                        0 <= m < entries@.len() && entries@[m].code@
                            == catalog.products@[k].barcodes@[t]@,
            decreases row_len - j,
        {
            let ghost prods = catalog.products@;
            let ghost c0 = catalog.products@[i as int].barcodes@[j as int]@;
            let ghost old_entries = entries@;
            let code_ref = &catalog.products[i].barcodes[j];
            let pos_opt = find_entry(&entries, code_ref);
            let ghost posg: int;
            match pos_opt {
                None => {
                    let e = IndexEntry { code: code_ref.clone(), group: Vec::new(), rep: i };
                    entries.push(e);
                    proof {
                        posg = old_entries.len() as int;
                        assert forall|k: int| !(#[trigger] carrier_at(prods, c0, k, i as int, j as int)) by {
                            if carrier_at(prods, c0, k, i as int, j as int) {
                                if 0 <= k < i {
                                    let t = choose|t: int|
                                        0 <= t < prods[k].barcodes@.len() && prods[k].barcodes@[t]@
                                            == c0;
                                    assert(carrier_at(prods, prods[k].barcodes@[t]@, k, i as int, j as int));
                                    assert(exists|m: int|
                                        0 <= m < old_entries.len() && old_entries[m].code@ == c0);
                                    assert(false);
                                } else {
                                    assert(k == i);
                                    let t = choose|t: int|
                                        0 <= t < j && prods[k].barcodes@[t]@ == c0;
                                    assert(carrier_at(prods, prods[k].barcodes@[t]@, k, i as int, j as int));
                                    assert(exists|m: int|
                                        0 <= m < old_entries.len() && old_entries[m].code@ == c0);
                                    assert(false);
                                }
                            }
                        }
                    }
                },
                Some(pos) => {
                    let old_rep: usize = entries[pos].rep;
                    let same_sku: bool = bytes_equal(
                        &catalog.products[i].sku,
                        &catalog.products[old_rep].sku,
                    );
                    let mut g2: Vec<usize> = clone_group(&entries[pos].group);
                    if !same_sku {
                        g2.push(i);
                        g2.push(old_rep);
                    }
                    let e2 = IndexEntry { code: code_ref.clone(), group: g2, rep: i };
                    entries.set(pos, e2);
                    proof {
                        posg = pos as int;
                    }
                },
            }
            proof {
                lemma_step_preserved(prods, old_entries, entries@, i as int, j as int, c0, posg);
                // every walked barcode still has an entry
                assert forall|k: int, t: int|
                    0 <= k < prods_len && 0 <= t < prods[k].barcodes@.len() && carrier_at(
                        prods,
                        #[trigger] prods[k].barcodes@[t]@,
                        k,
                        i as int,
                        j + 1,
                    ) implies exists|m: int|
                    0 <= m < entries@.len() && entries@[m].code@ == prods[k].barcodes@[t]@ by {
                    let c = prods[k].barcodes@[t]@;
                    lemma_carrier_step(prods, c, k, i as int, j as int);
                    if c == c0 {
                        assert(entries@[posg].code@ == c);
                    } else {
                        assert(carrier_at(prods, c, k, i as int, j as int));
                        let m0 = choose|m0: int|
                            0 <= m0 < old_entries.len() && old_entries[m0].code@ == c;
                        assert(entries@[m0].code@ == c);
                    }
                }
                // codes stay pairwise distinct
                assert forall|m1: int, m2: int|
                    0 <= m1 < m2 < entries@.len() implies entries@[m1].code@
                    != entries@[m2].code@ by {
                    if posg == old_entries.len() as int {
                        if m2 == posg {
                            assert(old_entries[m1].code@ != c0);
                        }
                    }
                }
            }
            j = j + 1;
        }
        proof {
            assert forall|m: int|
                0 <= m < entries@.len() implies entry_ok(
                catalog.products@,
                #[trigger] entries@[m],
                i + 1,
                0,
            ) by {
                lemma_entry_row_end(catalog.products@, entries@[m], i as int);
            }
            assert forall|k: int, t: int|
                0 <= k < prods_len && 0 <= t < catalog.products@[k].barcodes@.len() && carrier_at(
                    catalog.products@,
                    catalog.products@[k].barcodes@[t]@,
                    k,
                    i + 1,
                    0,
                ) implies exists|m: int|
                0 <= m < entries@.len() && entries@[m].code@
                    == catalog.products@[k].barcodes@[t]@ by {
                lemma_carrier_row_end(
                    catalog.products@,
                    catalog.products@[k].barcodes@[t]@,
                    k,
                    i as int,
                );
            }
        }
        i = i + 1;
    }
    proof {
        assert forall|k: int, t: int|
            0 <= k < catalog.products@.len() && 0 <= t
                < catalog.products@[k].barcodes@.len() implies carrier_at(
            catalog.products@,
            catalog.products@[k].barcodes@[t]@,
            k,
            catalog.products@.len() as int,
            0,
        ) by {
            assert(carries_upto(
                catalog.products@[k],
                catalog.products@[k].barcodes@[t]@,
                catalog.products@[k].barcodes@.len() as int,
            ));
        }
    }
    BarcodeIndex { entries }
}


proof fn two_carriers_witness(prods: Seq<CatalogProduct>, c: Seq<u8>, i: int, j: int) -> (r: (
    int,
    int,
))
    requires
        two_carriers(prods, c, i, j),
    ensures
        r.0 < r.1,
        carrier_at(prods, c, r.0, i, j),
        carrier_at(prods, c, r.1, i, j),
{
    choose|k1: int, k2: int|
        #![trigger carrier_at(prods, c, k1, i, j), carrier_at(prods, c, k2, i, j)]
        k1 < k2 && carrier_at(prods, c, k1, i, j) && carrier_at(prods, c, k2, i, j)
}

proof fn lemma_entry_row_end(prods: Seq<CatalogProduct>, e: IndexEntry, i: int)
    requires
        0 <= i < prods.len(),
        entry_ok(prods, e, i, prods[i].barcodes@.len() as int),
    ensures
        entry_ok(prods, e, i + 1, 0),
{
    let jend = prods[i].barcodes@.len() as int;
    let c = e.code@;
    assert forall|k: int| true implies ((#[trigger] carrier_at(prods, c, k, i + 1, 0)) <==> carrier_at(
        prods,
        c,
        k,
        i,
        jend,
    )) by {
        lemma_carrier_row_end(prods, c, k, i);
    }
    assert(carrier_at(prods, c, e.rep as int, i + 1, 0));
    assert forall|k: int| e.rep < k implies !(#[trigger] carrier_at(prods, c, k, i + 1, 0)) by {}
    assert(two_carriers(prods, c, i + 1, 0) <==> two_carriers(prods, c, i, jend)) by {
        if two_carriers(prods, c, i + 1, 0) {
            let (k1, k2) = two_carriers_witness(prods, c, i + 1, 0);
            assert(carrier_at(prods, c, k1, i, jend));
            assert(carrier_at(prods, c, k2, i, jend));
            assert(two_carriers(prods, c, i, jend));
        }
        if two_carriers(prods, c, i, jend) {
            let (k1, k2) = two_carriers_witness(prods, c, i, jend);
            assert(carrier_at(prods, c, k1, i + 1, 0));
            assert(carrier_at(prods, c, k2, i + 1, 0));
            assert(two_carriers(prods, c, i + 1, 0));
        }
    }
    if two_carriers(prods, c, i + 1, 0) {
        assert forall|k: int| #[trigger] carrier_at(prods, c, k, i + 1, 0) implies group_has(
            e.group@,
            k,
        ) by {
            assert(carrier_at(prods, c, k, i, jend));
        }
    }
    assert forall|m: int| 0 <= m < e.group@.len() implies carrier_at(
        prods,
        c,
        #[trigger] e.group@[m] as int,
        i + 1,
        0,
    ) by {
        assert(carrier_at(prods, c, e.group@[m] as int, i, jend));
    }
}

/// After one barcode of product `i` is recorded, every entry is again in
/// its walked-state: the touched entry (at `pos`, or the pushed one) now
/// reflects product `i`, and the others are untouched by a barcode that is
/// not theirs.
proof fn lemma_step_preserved(
    prods: Seq<CatalogProduct>,
    old_entries: Seq<IndexEntry>,
    new_entries: Seq<IndexEntry>,
    i: int,
    j: int,
    c0: Seq<u8>,
    pos: int,
)
    requires
        0 <= i < prods.len(),
        0 <= j < prods[i].barcodes@.len(),
        prods[i].barcodes@[j]@ == c0,
        forall|k1: int, k2: int| 0 <= k1 < k2 < prods.len() ==> prods[k1].sku@ != prods[k2].sku@,
        forall|m: int| 0 <= m < old_entries.len() ==> entry_ok(prods, #[trigger] old_entries[m], i, j),
        forall|m1: int, m2: int|
            0 <= m1 < m2 < old_entries.len() ==> old_entries[m1].code@ != old_entries[m2].code@,
        0 <= pos < new_entries.len(),
        new_entries[pos].code@ == c0,
        new_entries[pos].rep == i,
        forall|m: int|
            0 <= m < new_entries.len() && m != pos ==> m < old_entries.len()
                && #[trigger] new_entries[m] == old_entries[m],
        ({
            if pos < old_entries.len() {
                &&& new_entries.len() == old_entries.len()
                &&& old_entries[pos].code@ == c0
                &&& (prods[old_entries[pos].rep as int].sku@ == prods[i].sku@
                    ==> new_entries[pos].group@ == old_entries[pos].group@)
                &&& (prods[old_entries[pos].rep as int].sku@ != prods[i].sku@
                    ==> new_entries[pos].group@ == old_entries[pos].group@.push(i as usize).push(
                    old_entries[pos].rep,
                ))
            } else {
                &&& new_entries.len() == old_entries.len() + 1
                &&& new_entries[pos].group@.len() == 0
                &&& forall|k: int| !carrier_at(prods, c0, k, i, j)
            }
        }),
    ensures
        forall|m: int|
            0 <= m < new_entries.len() ==> entry_ok(prods, #[trigger] new_entries[m], i, j + 1),
{
    assert forall|m: int|
        0 <= m < new_entries.len() implies entry_ok(prods, #[trigger] new_entries[m], i, j + 1) by {
        let e = new_entries[m];
        let c = e.code@;
        assert forall|k: int| true implies ((#[trigger] carrier_at(prods, c, k, i, j + 1)) <==> (
        carrier_at(prods, c, k, i, j) || (k == i && c == c0))) by {
            lemma_carrier_step(prods, c, k, i, j);
        }
        if m != pos {
            let eo = old_entries[m];
            assert(entry_ok(prods, eo, i, j));
            if pos < old_entries.len() {
                assert(c != c0);
            } else {
                if c == c0 {
                    assert(carrier_at(prods, c0, eo.rep as int, i, j));
                    assert(false);
                }
            }
            // nothing about c changed in this step
            assert(carrier_at(prods, c, e.rep as int, i, j + 1));
            assert forall|k: int| e.rep < k implies !(#[trigger] carrier_at(prods, c, k, i, j + 1)) by {
                if carrier_at(prods, c, k, i, j + 1) {
                    assert(carrier_at(prods, c, k, i, j));
                }
            }
            assert(two_carriers(prods, c, i, j + 1) <==> two_carriers(prods, c, i, j)) by {
                if two_carriers(prods, c, i, j + 1) {
                    let (k1, k2) = two_carriers_witness(prods, c, i, j + 1);
                    assert(carrier_at(prods, c, k1, i, j));
                    assert(carrier_at(prods, c, k2, i, j));
                    assert(two_carriers(prods, c, i, j));
                }
                if two_carriers(prods, c, i, j) {
                    let (k1, k2) = two_carriers_witness(prods, c, i, j);
                    assert(carrier_at(prods, c, k1, i, j + 1));
                    assert(carrier_at(prods, c, k2, i, j + 1));
                    assert(two_carriers(prods, c, i, j + 1));
                }
            }
            if two_carriers(prods, c, i, j + 1) {
                assert forall|k: int| #[trigger] carrier_at(prods, c, k, i, j + 1) implies group_has(
                    e.group@,
                    k,
                ) by {
                    assert(carrier_at(prods, c, k, i, j));
                }
            }
            assert forall|m2: int| 0 <= m2 < e.group@.len() implies carrier_at(
                prods,
                c,
                #[trigger] e.group@[m2] as int,
                i,
                j + 1,
            ) by {
                assert(carrier_at(prods, c, eo.group@[m2] as int, i, j));
            }
        } else {
            // the touched entry, for c0 itself
            assert(c == c0);
            assert(carries_upto(prods[i], c0, j + 1)) by {
                assert(0 <= j < j + 1 && prods[i].barcodes@[j]@ == c0);
            }
            assert(carrier_at(prods, c0, i, i, j + 1));
            assert forall|k: int| (e.rep as int) < k implies !(#[trigger] carrier_at(
                prods,
                c0,
                k,
                i,
                j + 1,
            )) by {}
            if pos < old_entries.len() {
                let eo = old_entries[pos];
                let r0 = eo.rep as int;
                assert(entry_ok(prods, eo, i, j));
                assert(carrier_at(prods, c0, r0, i, j));
                if prods[r0].sku@ == prods[i].sku@ {
                    // in a catalog of distinct skus this is the same product
                    assert(r0 == i);
                    assert forall|k: int| #[trigger] carrier_at(prods, c0, k, i, j + 1) implies carrier_at(
                        prods,
                        c0,
                        k,
                        i,
                        j,
                    ) by {
                        if k == i {
                            assert(carrier_at(prods, c0, r0, i, j));
                        }
                    }
                    assert(two_carriers(prods, c0, i, j + 1) <==> two_carriers(prods, c0, i, j))
                        by {
                        if two_carriers(prods, c0, i, j + 1) {
                            let (k1, k2) = two_carriers_witness(prods, c0, i, j + 1);
                            assert(carrier_at(prods, c0, k1, i, j));
                            assert(carrier_at(prods, c0, k2, i, j));
                            assert(two_carriers(prods, c0, i, j));
                        }
                        if two_carriers(prods, c0, i, j) {
                            let (k1, k2) = two_carriers_witness(prods, c0, i, j);
                            assert(carrier_at(prods, c0, k1, i, j + 1));
                            assert(carrier_at(prods, c0, k2, i, j + 1));
                            assert(two_carriers(prods, c0, i, j + 1));
                        }
                    }
                    assert(e.group@ == eo.group@);
                    if two_carriers(prods, c0, i, j + 1) {
                        assert forall|k: int| #[trigger] carrier_at(prods, c0, k, i, j + 1) implies group_has(
                            e.group@,
                            k,
                        ) by {
                            assert(carrier_at(prods, c0, k, i, j));
                        }
                    }
                    assert forall|m2: int| 0 <= m2 < e.group@.len() implies carrier_at(
                        prods,
                        c0,
                        #[trigger] e.group@[m2] as int,
                        i,
                        j + 1,
                    ) by {
                        assert(carrier_at(prods, c0, eo.group@[m2] as int, i, j));
                    }
                } else {
                    // cross-sku collision: the old representative differs
                    assert(r0 != i);
                    assert(r0 < i) by {
                        assert(carrier_at(prods, c0, r0, i, j));
                    }
                    assert(two_carriers(prods, c0, i, j + 1)) by {
                        assert(carrier_at(prods, c0, r0, i, j + 1));
                        assert(carrier_at(prods, c0, i, i, j + 1));
                    }
                    assert(e.group@ == eo.group@.push(i as usize).push(eo.rep));
                    assert forall|k: int| #[trigger] carrier_at(prods, c0, k, i, j + 1) implies group_has(
                        e.group@,
                        k,
                    ) by {
                        if k == i {
                            assert(e.group@[e.group@.len() - 2] == i as usize);
                        } else {
                            assert(carrier_at(prods, c0, k, i, j));
                            if two_carriers(prods, c0, i, j) {
                                assert(group_has(eo.group@, k));
                                let m2 = choose|m2: int|
                                    0 <= m2 < eo.group@.len() && eo.group@[m2] == k;
                                assert(e.group@[m2] == k);
                            } else {
                                // the old representative was the only prior carrier
                                assert(k <= r0);
                                if k < r0 {
                                    assert(two_carriers(prods, c0, i, j)) by {
                                        assert(carrier_at(prods, c0, k, i, j));
                                        assert(carrier_at(prods, c0, r0, i, j));
                                    }
                                    assert(false);
                                }
                                assert(k == r0);
                                assert(e.group@[e.group@.len() - 1] == eo.rep);
                            }
                        }
                    }
                    assert forall|m2: int| 0 <= m2 < e.group@.len() implies carrier_at(
                        prods,
                        c0,
                        #[trigger] e.group@[m2] as int,
                        i,
                        j + 1,
                    ) by {
                        if m2 < eo.group@.len() {
                            assert(e.group@[m2] == eo.group@[m2]);
                            assert(carrier_at(prods, c0, eo.group@[m2] as int, i, j));
                        } else if m2 == e.group@.len() - 2 {
                            assert(e.group@[m2] == i as usize);
                            assert(carrier_at(prods, c0, i, i, j + 1));
                        } else {
                            assert(e.group@[m2] == eo.rep);
                            assert(carrier_at(prods, c0, r0, i, j));
                        }
                    }
                }
            } else {
                // fresh entry: product i is the only carrier
                assert forall|k: int| #[trigger] carrier_at(prods, c0, k, i, j + 1) implies k == i by {
                    if k != i {
                        assert(carrier_at(prods, c0, k, i, j));
                    }
                }
                assert(!two_carriers(prods, c0, i, j + 1)) by {
                    if two_carriers(prods, c0, i, j + 1) {
                        let (k1, k2) = two_carriers_witness(prods, c0, i, j + 1);
                        assert(k1 == i && k2 == i);
                    }
                }
                assert(e.group@.len() == 0);
            }
        }
    }
}


impl BarcodeIndex {
    /// Finds the position of the entry for `code`, if any.
    pub fn lookup(&self, code: &Barcode) -> (r: Option<usize>)
        ensures
            match r {
                Some(p) => p < self.entries@.len() && self.entries@[p as int].code@ == code@,
                None => !self.has_code(code@),
            },
    {
        find_entry(&self.entries, code)
    }
}


/// The mathematical content of a catalog record.
#[verifier::ext_equal]
pub struct ProductView {
    pub sku: Seq<u8>,
    pub description: Seq<u8>,
    pub barcodes: Seq<Seq<u8>>,
    pub list_price: Decimal,
    pub cost: Decimal,
    pub stock: Decimal,
    pub weight: Decimal,
    pub last_sold: Option<CalendarDate>,
}

impl View for CatalogProduct {
    type V = ProductView;

    open spec fn view(&self) -> ProductView {
        ProductView {
            sku: self.sku@,
            description: self.description@,
            barcodes: self.barcodes@.map_values(|b: Barcode| b@),
            list_price: self.list_price,
            cost: self.cost,
            stock: self.stock,
            weight: self.weight,
            last_sold: self.last_sold,
        }
    }
}

/// Copies a list of barcodes.
pub fn clone_barcodes(v: &Vec<Barcode>) -> (r: Vec<Barcode>)
    ensures
        r@.len() == v@.len(),
        forall|t: int| 0 <= t < v@.len() ==> r@[t]@ == v@[t]@ && ((#[trigger] r@[t]).wf() <==> v@[t].wf()),
{
    let mut r: Vec<Barcode> = Vec::new();
    let mut i: usize = 0;
    while i < v.len()
        invariant
            i <= v@.len(),
            r@.len() == i,
            forall|t: int| 0 <= t < i ==> r@[t]@ == v@[t]@ && ((#[trigger] r@[t]).wf() <==> v@[t].wf()),
        decreases v@.len() - i,
    {
        r.push(v[i].clone());
        i = i + 1;
    }
    r
}


impl Clone for ExportedProduct {
    fn clone(&self) -> (r: Self)
        ensures
            r.sku@ == self.sku@,
            r.upc@ == self.upc@,
            r.desc@ == self.desc@,
            r.weight == self.weight,
            r.cost == self.cost,
            r.retail == self.retail,
    {
        ExportedProduct {
            sku: clone_bytes(&self.sku),
            upc: self.upc.clone(),
            desc: clone_bytes(&self.desc),
            weight: self.weight,
            cost: self.cost,
            retail: self.retail,
        }
    }
}


/// Duplicate detection is symmetric: when two catalog products with
/// different skus share a barcode, the index's conflict group for that
/// barcode holds them both, whichever of them the catalog lists first.
pub proof fn lemma_duplicates_symmetric(
    prods: Seq<CatalogProduct>,
    idx: BarcodeIndex,
    a: int,
    b: int,
    c: Seq<u8>,
)
    requires
        idx.wf(prods),
        0 <= a < prods.len(),
        0 <= b < prods.len(),
        prods[a].sku@ != prods[b].sku@,
        carries(prods[a], c),
        carries(prods[b], c),
    ensures
        exists|m: int|
            0 <= m < idx.entries@.len() && idx.entries@[m].code@ == c && group_has(
                #[trigger] idx.entries@[m].group@,
                a,
            ) && group_has(idx.entries@[m].group@, b),
{
    let iend = prods.len() as int;
    let ta = choose|t: int| 0 <= t < prods[a].barcodes@.len() && prods[a].barcodes@[t]@ == c;
    assert(idx.has_code(prods[a].barcodes@[ta]@));
    let m = choose|m: int| 0 <= m < idx.entries@.len() && idx.entries@[m].code@ == c;
    let e = idx.entries@[m];
    assert(entry_ok(prods, e, iend, 0));
    assert(carrier_at(prods, c, a, iend, 0));
    assert(carrier_at(prods, c, b, iend, 0));
    assert(a != b);
    assert(two_carriers(prods, c, iend, 0)) by {
        if a < b {
            assert(carrier_at(prods, c, a, iend, 0) && carrier_at(prods, c, b, iend, 0));
        } else {
            assert(carrier_at(prods, c, b, iend, 0) && carrier_at(prods, c, a, iend, 0));
        }
    }
    assert(group_has(e.group@, a));
    assert(group_has(e.group@, b));
}

} // verus!
