use vstd::prelude::*;
use crate::codec::Barcode;
use crate::decimal::{dec_text_spec, dec_to_text};
use crate::product::{CatalogProduct, ExportedProduct, ProductView};

verus! {

/// Field positions on the inventory edit screen.
pub const WEIGHT_FIELD: u32 = 15;

pub const RETAIL_FIELD: u32 = 25;

pub const COST_FIELD: u32 = 26;

/// The first of the three alternate-sku slots; the others follow it.
pub const FIRST_ALT_SKU_FIELD: u32 = 35;

pub const MARKER_FIELD: u32 = 39;

/// The classification marker value, the letter Z.
pub const MARKER_VALUE: u8 = 90;

/// One corrective operation against the inventory edit port.
pub enum EditOp {
    ClearBarcodes,
    AddBarcode(Barcode),
    WriteField(u32, Vec<u8>),
}

/// The mathematical content of an operation.
#[verifier::ext_equal]
pub enum EditOpView {
    ClearBarcodes,
    AddBarcode(Seq<u8>),
    WriteField(u32, Seq<u8>),
}

impl View for EditOp {
    type V = EditOpView;

    open spec fn view(&self) -> EditOpView {
        match self {
            EditOp::ClearBarcodes => EditOpView::ClearBarcodes,
            EditOp::AddBarcode(b) => EditOpView::AddBarcode(b@),
            EditOp::WriteField(f, text) => EditOpView::WriteField(*f, text@),
        }
    }
}

/// The codes of `codes` that are not `vendor`, in order.
pub open spec fn kept_codes(codes: Seq<Seq<u8>>, vendor: Seq<u8>) -> Seq<Seq<u8>>
    decreases codes.len(),
{
    if codes.len() == 0 {
        Seq::empty()
    } else {
        let pre = kept_codes(codes.drop_last(), vendor);
        if codes.last() != vendor {
            pre.push(codes.last())
        } else {
            pre
        }
    }
}

/// The barcode-reordering plan: clear every barcode, re-add every original
/// barcode except the vendor's, and add the vendor's barcode last, so that
/// it becomes the primary (most recent) entry.
pub open spec fn upc_plan_spec(abc: ProductView, vendor_upc: Seq<u8>) -> Seq<EditOpView> {
    seq![EditOpView::ClearBarcodes] + kept_codes(abc.barcodes, vendor_upc).map_values(
        |c: Seq<u8>| EditOpView::AddBarcode(c),
    ) + seq![EditOpView::AddBarcode(vendor_upc)]
}

/// Plans the reordering of a record's barcodes so that the vendor's
/// barcode ends up primary.
pub fn fix_upc(abc_prod: &CatalogProduct, ex_prod: &ExportedProduct) -> (r: Vec<EditOp>)
    ensures
        r@.map_values(|op: EditOp| op@) == upc_plan_spec(abc_prod@, ex_prod.upc@),
{
    let mut r: Vec<EditOp> = Vec::new();
    r.push(EditOp::ClearBarcodes);
    let ghost codes = abc_prod@.barcodes;
    let mut j: usize = 0;
    while j < abc_prod.barcodes.len()
        invariant
            codes == abc_prod@.barcodes,
            j <= abc_prod.barcodes@.len(),
            codes.len() == abc_prod.barcodes@.len(),
            r@.map_values(|op: EditOp| op@) == seq![EditOpView::ClearBarcodes] + kept_codes(
                codes.subrange(0, j as int),
                ex_prod.upc@,
            ).map_values(|c: Seq<u8>| EditOpView::AddBarcode(c)),
        decreases abc_prod.barcodes@.len() - j,
    {
        proof {
            assert(codes.subrange(0, j + 1).drop_last() =~= codes.subrange(0, j as int));
            assert(codes.subrange(0, j + 1).last() == abc_prod.barcodes@[j as int]@);
        }
        let upc = &abc_prod.barcodes[j];
        let ghost pre_map = r@.map_values(|op: EditOp| op@);
        let ghost kept_pre = kept_codes(codes.subrange(0, j as int), ex_prod.upc@);
        if !upc.same_code(&ex_prod.upc) {
            r.push(EditOp::AddBarcode(upc.clone()));
            proof {
                assert(upc@ == codes[j as int]);
                assert(kept_codes(codes.subrange(0, j + 1), ex_prod.upc@) == kept_pre.push(
                    codes[j as int],
                ));
                assert(r@.map_values(|op: EditOp| op@) =~= pre_map.push(
                    EditOpView::AddBarcode(codes[j as int]),
                ));
                assert(pre_map.push(EditOpView::AddBarcode(codes[j as int]))
                    =~= seq![EditOpView::ClearBarcodes] + kept_pre.push(
                    codes[j as int],
                ).map_values(|c: Seq<u8>| EditOpView::AddBarcode(c)));
            }
        } else {
            proof {
                assert(upc@ == codes[j as int]);
                assert(kept_codes(codes.subrange(0, j + 1), ex_prod.upc@) == kept_pre);
            }
        }
        j = j + 1;
    }
    let ghost end_map = r@.map_values(|op: EditOp| op@);
    r.push(EditOp::AddBarcode(ex_prod.upc.clone()));
    proof {
        assert(codes.subrange(0, codes.len() as int) =~= codes);
        assert(r@.map_values(|op: EditOp| op@) =~= end_map.push(
            EditOpView::AddBarcode(ex_prod.upc@),
        ));
        assert(end_map.push(EditOpView::AddBarcode(ex_prod.upc@)) =~= upc_plan_spec(
            abc_prod@,
            ex_prod.upc@,
        ));
    }
    r
}

/// The weight write, when the vendor supplies a weight.
pub open spec fn weight_plan_spec(ex: ExportedProduct) -> Seq<EditOpView> {
    match ex.weight {
        Some(w) => seq![EditOpView::WriteField(WEIGHT_FIELD, dec_text_spec(w))],
        None => Seq::empty(),
    }
}

/// Plans the weight write: nothing when the vendor supplies no weight.
pub fn fix_weight(_abc_prod: &CatalogProduct, ex_prod: &ExportedProduct) -> (r: Vec<EditOp>)
    requires
        ex_prod.wf(),
    ensures
        r@.map_values(|op: EditOp| op@) == weight_plan_spec(*ex_prod),
{
    let mut r: Vec<EditOp> = Vec::new();
    match &ex_prod.weight {
        Some(w) => {
            r.push(EditOp::WriteField(WEIGHT_FIELD, dec_to_text(w)));
        },
        None => {},
    }
    proof {
        assert(r@.map_values(|op: EditOp| op@) =~= weight_plan_spec(*ex_prod));
    }
    r
}

/// The unconditional cost write.
pub open spec fn cost_plan_spec(ex: ExportedProduct) -> Seq<EditOpView> {
    seq![EditOpView::WriteField(COST_FIELD, dec_text_spec(ex.cost))]
}

/// Plans the cost write, which always happens.
pub fn fix_cost(_abc_prod: &CatalogProduct, ex_prod: &ExportedProduct) -> (r: Vec<EditOp>)
    requires
        ex_prod.wf(),
    ensures
        r@.map_values(|op: EditOp| op@) == cost_plan_spec(*ex_prod),
{
    let mut r: Vec<EditOp> = Vec::new();
    r.push(EditOp::WriteField(COST_FIELD, dec_to_text(&ex_prod.cost)));
    proof {
        assert(r@.map_values(|op: EditOp| op@) =~= cost_plan_spec(*ex_prod));
    }
    r
}

/// The retail write, when the vendor supplies a retail price.
pub open spec fn retail_plan_spec(ex: ExportedProduct) -> Seq<EditOpView> {
    match ex.retail {
        Some(p) => seq![EditOpView::WriteField(RETAIL_FIELD, dec_text_spec(p))],
        None => Seq::empty(),
    }
}

/// Plans the retail write: nothing when the vendor supplies no retail.
pub fn fix_retail(_abc_prod: &CatalogProduct, ex_prod: &ExportedProduct) -> (r: Vec<EditOp>)
    requires
        ex_prod.wf(),
    ensures
        r@.map_values(|op: EditOp| op@) == retail_plan_spec(*ex_prod),
{
    let mut r: Vec<EditOp> = Vec::new();
    match &ex_prod.retail {
        Some(p) => {
            r.push(EditOp::WriteField(RETAIL_FIELD, dec_to_text(p)));
        },
        None => {},
    }
    proof {
        assert(r@.map_values(|op: EditOp| op@) =~= retail_plan_spec(*ex_prod));
    }
    r
}

/// The forced classification-marker write.
pub open spec fn group_plan_spec() -> Seq<EditOpView> {
    seq![EditOpView::WriteField(MARKER_FIELD, seq![MARKER_VALUE])]
}

/// Plans the marker write: the marker field is forced to its constant
/// value.
pub fn fix_group(_abc_prod: &CatalogProduct, _ex_prod: &ExportedProduct) -> (r: Vec<EditOp>)
    ensures
        r@.map_values(|op: EditOp| op@) == group_plan_spec(),
{
    let mut text: Vec<u8> = Vec::new();
    text.push(MARKER_VALUE);
    let mut r: Vec<EditOp> = Vec::new();
    proof {
        assert(text@ =~= seq![MARKER_VALUE]);
    }
    r.push(EditOp::WriteField(MARKER_FIELD, text));
    proof {
        assert(r@.map_values(|op: EditOp| op@) =~= group_plan_spec());
    }
    r
}

/// The position of the first empty slot, or -1 when every slot is
/// occupied.
pub open spec fn first_empty(slots: Seq<Seq<u8>>) -> int
    decreases slots.len(),
{
    if slots.len() == 0 {
        -1
    } else if slots[0].len() == 0 {
        0
    } else {
        let r = first_empty(slots.drop_first());
        if r >= 0 {
            r + 1
        } else {
            -1
        }
    }
}

/// Plans the alternate-sku write, given the three slot values read from
/// the screen: the vendor sku goes into the first empty slot; when all
/// three are occupied nothing is written, which is not an error.
pub fn fix_alt_sku(slots: &Vec<Vec<u8>>, ex_prod: &ExportedProduct) -> (r: Option<EditOp>)
    requires
        slots@.len() == 3,
    ensures
        ({
            let sv = slots@.map_values(|s: Vec<u8>| s@);
            match r {
                Some(op) => first_empty(sv) >= 0 && op@ == EditOpView::WriteField(
                    (FIRST_ALT_SKU_FIELD + first_empty(sv)) as u32,
                    ex_prod.sku@,
                ),
                None => first_empty(sv) == -1,
            }
        }),
{
    let ghost sv = slots@.map_values(|s: Vec<u8>| s@);
    proof {
        assert(sv.drop_first().drop_first()[0] == sv[2]);
        assert(sv.drop_first()[0] == sv[1]);
        assert(sv.drop_first().drop_first().drop_first() =~= Seq::<Seq<u8>>::empty());
    }
    let mut i: usize = 0;
    while i < 3
        invariant
            slots@.len() == 3,
            sv == slots@.map_values(|s: Vec<u8>| s@),
            i <= 3,
            forall|t: int| 0 <= t < i ==> sv[t].len() != 0,
            sv.drop_first().drop_first().drop_first() =~= Seq::<Seq<u8>>::empty(),
        decreases 3 - i,
    {
        if slots[i].len() == 0 {
            proof {
                let s1 = sv.drop_first();
                let s2 = s1.drop_first();
                assert(slots@[i as int]@ == sv[i as int]);
                if i == 0 {
                    assert(first_empty(sv) == 0);
                } else if i == 1 {
                    assert(s1[0] == sv[1]);
                    assert(first_empty(s1) == 0);
                    assert(first_empty(sv) == 1);
                } else {
                    assert(s1[0] == sv[1]);
                    assert(s2[0] == sv[2]);
                    assert(first_empty(s2) == 0);
                    assert(first_empty(s1) == 1);
                    assert(first_empty(sv) == 2);
                }
            }
            return Some(
                EditOp::WriteField(
                    FIRST_ALT_SKU_FIELD + (i as u32),
                    crate::codec::clone_bytes(&ex_prod.sku),
                ),
            );
        }
        i = i + 1;
    }
    proof {
        let s1 = sv.drop_first();
        let s2 = s1.drop_first();
        assert(sv[0].len() != 0 && sv[1].len() != 0 && sv[2].len() != 0);
        assert(s1[0] == sv[1]);
        assert(s2[0] == sv[2]);
        assert(first_empty(s2.drop_first()) == -1);
        assert(first_empty(s2) == -1);
        assert(first_empty(s1) == -1);
        assert(first_empty(sv) == -1);
    }
    None
}

/// The whole ordered corrective sequence for one cleanly-matched item:
/// reorder the barcodes, write the weight when supplied, write the cost,
/// write the retail when supplied, and force the marker. The alternate-sku
/// step follows separately, since it needs the slot values read back from
/// the screen.
pub open spec fn fix_up_plan_spec(abc: ProductView, ex: ExportedProduct) -> Seq<EditOpView> {
    upc_plan_spec(abc, ex.upc@) + weight_plan_spec(ex) + cost_plan_spec(ex) + retail_plan_spec(ex)
        + group_plan_spec()
}

/// Plans the full corrective sequence for one matched item.
pub fn fix_up_plan(abc_prod: &CatalogProduct, ex_prod: &ExportedProduct) -> (r: Vec<EditOp>)
    requires
        ex_prod.wf(),
    ensures
        r@.map_values(|op: EditOp| op@) == fix_up_plan_spec(abc_prod@, *ex_prod),
{
    let mut r = fix_upc(abc_prod, ex_prod);
    let mut w = fix_weight(abc_prod, ex_prod);
    let mut c = fix_cost(abc_prod, ex_prod);
    let mut p = fix_retail(abc_prod, ex_prod);
    let mut g = fix_group(abc_prod, ex_prod);
    let ghost r0 = r@.map_values(|op: EditOp| op@);
    let ghost w0 = w@.map_values(|op: EditOp| op@);
    let ghost c0 = c@.map_values(|op: EditOp| op@);
    let ghost p0 = p@.map_values(|op: EditOp| op@);
    let ghost g0 = g@.map_values(|op: EditOp| op@);
    r.append(&mut w);
    proof {
        assert(r@.map_values(|op: EditOp| op@) =~= r0 + w0);
    }
    r.append(&mut c);
    proof {
        assert(r@.map_values(|op: EditOp| op@) =~= r0 + w0 + c0);
    }
    r.append(&mut p);
    proof {
        assert(r@.map_values(|op: EditOp| op@) =~= r0 + w0 + c0 + p0);
    }
    r.append(&mut g);
    proof {
        assert(r@.map_values(|op: EditOp| op@) =~= r0 + w0 + c0 + p0 + g0);
        assert(r0 + w0 + c0 + p0 + g0 =~= fix_up_plan_spec(abc_prod@, *ex_prod));
    }
    r
}

} // verus!
