use abc_reconcile::catalog::{ingest, parse_date, parse_item_row, FieldName, ParseError};
use abc_reconcile::product::CalendarDate;
use abc_reconcile::classify::{classify, disposition, Disposition};
use abc_reconcile::codec::{check_digit, repair_or_reject, Barcode};
use abc_reconcile::decimal::{dec_to_text, delta_exceeds, parse_decimal, strip_money, Decimal, DeltaPolicy};
use abc_reconcile::fixers::{fix_alt_sku, fix_group, fix_up_plan, fix_upc, EditOp};
use abc_reconcile::product::{map_upcs, Catalog, CatalogProduct, ExportedProduct};
use abc_reconcile::driver::reconcile;
use abc_reconcile::reports::{bucket_skus, group_skus, report_lines};

fn digit_values(s: &str) -> Vec<u8> {
    s.bytes().map(|b| b - b'0').collect()
}

fn code(s: &str) -> Barcode {
    repair_or_reject(&digit_values(s)).expect("token should repair")
}

fn dec(mantissa: u64, scale: u32) -> Decimal {
    Decimal { mantissa, scale }
}

fn tab_line(fields: &[&str]) -> Vec<u8> {
    fields.join("\t").into_bytes()
}

fn item_line(sku: &str, desc: &str, list: &str, cost: &str, barcodes: &str, weight: &str) -> Vec<u8> {
    let mut fields = vec![""; 46];
    fields[0] = sku;
    fields[1] = desc;
    fields[6] = list;
    fields[8] = cost;
    fields[43] = barcodes;
    fields[45] = weight;
    tab_line(&fields)
}

fn posted_line(sku: &str, date: &str, stock: &str) -> Vec<u8> {
    let mut fields = vec![""; 20];
    fields[0] = sku;
    fields[1] = date;
    fields[19] = stock;
    tab_line(&fields)
}

fn simple_product(sku: &str, upc: &str, list: Decimal, cost: Decimal) -> CatalogProduct {
    CatalogProduct {
        sku: sku.as_bytes().to_vec(),
        description: b"thing".to_vec(),
        barcodes: vec![code(upc)],
        list_price: list,
        cost,
        stock: dec(0, 0),
        weight: dec(0, 0),
        last_sold: None,
    }
}

fn vendor_product(sku: &str, upc: &str, cost: Decimal, retail: Option<Decimal>) -> ExportedProduct {
    ExportedProduct {
        sku: sku.as_bytes().to_vec(),
        upc: code(upc),
        desc: b"thing".to_vec(),
        weight: None,
        cost,
        retail,
    }
}

#[test]
fn check_digit_of_known_payload() {
    assert_eq!(check_digit(&digit_values("012345678901")), 2);
    assert_eq!(check_digit(&digit_values("000000000000")), 0);
    assert_eq!(check_digit(&digit_values("012345678912")), 8);
}

#[test]
fn repair_rejects_short_codes() {
    assert!(repair_or_reject(&digit_values("0123456789")).is_none());
    assert!(repair_or_reject(&digit_values("")).is_none());
}

#[test]
fn repair_eleven_digits_appends_placeholder_and_checksum() {
    let b = code("01234567891");
    assert_eq!(b.digits(), &digit_values("0123456789104"));
}

#[test]
fn repair_twelve_digits_appends_checksum() {
    let b = code("012345678912");
    assert_eq!(b.digits(), &digit_values("0123456789128"));
}

#[test]
fn repair_distrusts_supplied_check_digit() {
    let b = code("0123456789019");
    assert_eq!(b.digits(), &digit_values("0123456789012"));
}

#[test]
fn repair_ignores_digits_past_thirteen() {
    let b = code("01234567890199999");
    assert_eq!(b.digits(), &digit_values("0123456789012"));
}

#[test]
fn repair_of_valid_code_is_identity() {
    let b = code("0123456789012");
    assert_eq!(b.digits(), &digit_values("0123456789012"));
    let again = repair_or_reject(b.digits()).unwrap();
    assert!(again.same_code(&b));
}

#[test]
fn computed_check_digit_revalidates() {
    for payload in ["123456789012", "999999999999", "400638133393"] {
        let mut digits = digit_values(payload);
        let d = check_digit(&digits);
        digits.push(d);
        let b = repair_or_reject(&digits).unwrap();
        assert_eq!(b.digits(), &digits);
    }
}

#[test]
fn strip_money_keeps_digits_and_point() {
    assert_eq!(strip_money(&b"$1,234.56".to_vec()), b"1234.56".to_vec());
    assert_eq!(strip_money(&b" 12.00 USD".to_vec()), b"12.00".to_vec());
}

#[test]
fn parse_decimal_exact_values() {
    assert_eq!(parse_decimal(&b"12.00".to_vec()), Some(dec(1200, 2)));
    assert_eq!(parse_decimal(&b"5".to_vec()), Some(dec(5, 0)));
    assert_eq!(parse_decimal(&b"1.5".to_vec()), Some(dec(15, 1)));
    assert_eq!(parse_decimal(&b"0.050".to_vec()), Some(dec(50, 3)));
}

#[test]
fn parse_decimal_rejections() {
    assert_eq!(parse_decimal(&b"".to_vec()), None);
    assert_eq!(parse_decimal(&b".".to_vec()), None);
    assert_eq!(parse_decimal(&b"1.2.3".to_vec()), None);
    assert_eq!(parse_decimal(&b"12a".to_vec()), None);
    assert_eq!(parse_decimal(&b"1.0000000001".to_vec()), None);
    assert_eq!(parse_decimal(&b"100000000000000".to_vec()), None);
}

#[test]
fn parse_decimal_largest_mantissa() {
    assert_eq!(parse_decimal(&b"99999999999999".to_vec()), Some(dec(99_999_999_999_999, 0)));
    assert_eq!(parse_decimal(&b"00099.9".to_vec()), Some(dec(999, 1)));
}

#[test]
fn eleven_zero_digits_repair_to_a_valid_code() {
    let b = code("00000000000");
    assert_eq!(b.digits(), &digit_values("0000000000000"));
}

#[test]
fn decimal_text_keeps_scale() {
    assert_eq!(dec_to_text(&dec(800, 2)), b"8.00".to_vec());
    assert_eq!(dec_to_text(&dec(8, 0)), b"8".to_vec());
    assert_eq!(dec_to_text(&dec(15, 1)), b"1.5".to_vec());
    assert_eq!(dec_to_text(&dec(5, 3)), b"0.005".to_vec());
}

#[test]
fn absolute_delta_boundary() {
    let pol = DeltaPolicy::Absolute(dec(50, 2));
    assert!(!delta_exceeds(&dec(1000, 2), &dec(1050, 2), &pol));
    assert!(delta_exceeds(&dec(1000, 2), &dec(1051, 2), &pol));
    assert!(!delta_exceeds(&dec(1000, 2), &dec(950, 2), &pol));
    assert!(delta_exceeds(&dec(1000, 2), &dec(949, 2), &pol));
}

#[test]
fn relative_delta_boundary() {
    let pol = DeltaPolicy::Relative(dec(1, 1));
    assert!(!delta_exceeds(&dec(1000, 2), &dec(1100, 2), &pol));
    assert!(delta_exceeds(&dec(1000, 2), &dec(1101, 2), &pol));
}

#[test]
fn delta_compares_across_scales() {
    let pol = DeltaPolicy::Absolute(dec(5, 1));
    assert!(!delta_exceeds(&dec(10, 0), &dec(10500, 3), &pol));
    assert!(delta_exceeds(&dec(10, 0), &dec(10501, 3), &pol));
}

#[test]
fn parse_date_permissive() {
    assert_eq!(
        parse_date(&b"2024-01-10".to_vec()),
        Some(CalendarDate { year: 2024, month: 1, day: 10 })
    );
    assert_eq!(parse_date(&b"2024-13-10".to_vec()), None);
    assert_eq!(parse_date(&b"2024-00-10".to_vec()), None);
    assert_eq!(parse_date(&b"not a date".to_vec()), None);
    assert_eq!(parse_date(&b"2024/01/10".to_vec()), None);
}

#[test]
fn item_row_end_to_end() {
    let items = vec![item_line("SKU1", "Widget", "12.00", "8.00", "012345678912,0123456789", "1.5")];
    let posted = vec![posted_line("SKU1", "2024-01-10", "5")];
    let cat = ingest(&items, &posted).expect("ingestion should succeed");
    assert_eq!(cat.products.len(), 1);
    let p = &cat.products[0];
    assert_eq!(p.sku, b"SKU1".to_vec());
    assert_eq!(p.description, b"Widget".to_vec());
    assert_eq!(p.list_price, dec(1200, 2));
    assert_eq!(p.cost, dec(800, 2));
    assert_eq!(p.stock, dec(5, 0));
    assert_eq!(p.weight, dec(15, 1));
    assert_eq!(p.barcodes.len(), 1);
    assert_eq!(p.barcodes[0].digits(), &digit_values("0123456789128"));
    let d = p.last_sold.unwrap();
    assert_eq!((d.year, d.month, d.day), (2024, 1, 10));
}

#[test]
fn item_row_missing_column_names_field_and_row() {
    let items = vec![tab_line(&["SKU1", "Widget", "", "", "", "", "12.00"])];
    match ingest(&items, &vec![]) {
        Err(ParseError::MissingField { row, field }) => {
            assert_eq!(row, 1);
            assert_eq!(field, FieldName::Cost);
        }
        other => panic!("expected a missing-field error, got {:?}", other.is_ok()),
    }
}

#[test]
fn malformed_money_aborts_ingestion() {
    let items = vec![
        item_line("SKU1", "Widget", "12.00", "8.00", "", "1.5"),
        item_line("SKU2", "Gadget", "no price", "8.00", "", "1.5"),
    ];
    match ingest(&items, &vec![]) {
        Err(ParseError::MalformedValue { row, field, raw }) => {
            assert_eq!(row, 2);
            assert_eq!(field, FieldName::ListPrice);
            assert_eq!(raw, b"no price".to_vec());
        }
        _ => panic!("expected a malformed-value error"),
    }
}

#[test]
fn posted_row_without_base_record_fails() {
    let items = vec![item_line("SKU1", "Widget", "12.00", "8.00", "", "1.5")];
    let posted = vec![posted_line("GHOST", "2024-01-10", "5")];
    match ingest(&items, &posted) {
        Err(ParseError::MissingCrossReference { row, sku }) => {
            assert_eq!(row, 1);
            assert_eq!(sku, b"GHOST".to_vec());
        }
        _ => panic!("expected a missing cross-reference error"),
    }
}

#[test]
fn merge_uppercases_sku() {
    let items = vec![item_line("sku1", "Widget", "12.00", "8.00", "", "1.5")];
    let posted = vec![posted_line("sku1", "bad date", "3")];
    let cat = ingest(&items, &posted).unwrap();
    assert_eq!(cat.products[0].sku, b"SKU1".to_vec());
    assert_eq!(cat.products[0].stock, dec(3, 0));
    assert!(cat.products[0].last_sold.is_none());
}

#[test]
fn later_item_row_replaces_same_sku() {
    let items = vec![
        item_line("SKU1", "Old", "1.00", "1.00", "", "1"),
        item_line("SKU1", "New", "2.00", "2.00", "", "2"),
    ];
    let cat = ingest(&items, &vec![]).unwrap();
    assert_eq!(cat.products.len(), 1);
    assert_eq!(cat.products[0].description, b"New".to_vec());
}

#[test]
fn shared_barcode_builds_duplicate_group() {
    let items = vec![
        item_line("SKU1", "Widget", "12.00", "8.00", "0123456789012", "1.5"),
        item_line("SKU2", "Gadget", "12.00", "8.00", "0123456789012", "1.5"),
    ];
    let cat = ingest(&items, &vec![]).unwrap();
    let idx = map_upcs(&cat);
    assert_eq!(idx.entries.len(), 1);
    let e = &idx.entries[0];
    assert_eq!(e.code.digits(), &digit_values("0123456789012"));
    assert_eq!(e.rep, 1);
    assert!(e.group.contains(&0));
    assert!(e.group.contains(&1));
}

#[test]
fn duplicate_group_symmetric_under_insertion_order() {
    for flip in [false, true] {
        let mut items = vec![
            item_line("SKU1", "Widget", "12.00", "8.00", "0123456789012", "1.5"),
            item_line("SKU2", "Gadget", "12.00", "8.00", "0123456789012", "1.5"),
        ];
        if flip {
            items.reverse();
        }
        let cat = ingest(&items, &vec![]).unwrap();
        let idx = map_upcs(&cat);
        let e = &idx.entries[0];
        assert!(e.group.contains(&0));
        assert!(e.group.contains(&1));
    }
}

#[test]
fn same_sku_reusing_barcode_is_no_duplicate() {
    let items = vec![item_line("SKU1", "Widget", "12.00", "8.00", "0123456789012,0123456789012", "1.5")];
    let cat = ingest(&items, &vec![]).unwrap();
    let idx = map_upcs(&cat);
    assert_eq!(idx.entries.len(), 1);
    assert!(idx.entries[0].group.is_empty());
}

#[test]
fn duplicate_report_names_both_skus() {
    let items = vec![
        item_line("SKU1", "Widget", "12.00", "8.00", "0123456789012", "1.5"),
        item_line("SKU2", "Gadget", "12.00", "8.00", "0123456789012", "1.5"),
    ];
    let cat = ingest(&items, &vec![]).unwrap();
    let idx = map_upcs(&cat);
    let pol = DeltaPolicy::Absolute(dec(50, 2));
    let out = classify(&vec![], &cat, &idx, &pol);
    assert_eq!(out.duplicates.len(), 1);
    let names = group_skus(&cat, &out.duplicates[0].members);
    let text = report_lines(&names);
    let text = String::from_utf8(text).unwrap();
    assert!(text.contains("SKU1"));
    assert!(text.contains("SKU2"));
}

#[test]
fn unknown_barcode_lands_in_new_bucket_only() {
    let cat = Catalog {
        products: vec![simple_product("SKU1", "012345678912", dec(1200, 2), dec(800, 2))],
    };
    let idx = map_upcs(&cat);
    let vendor = vec![vendor_product("V1", "9999999999994", dec(800, 2), None)];
    let pol = DeltaPolicy::Absolute(dec(50, 2));
    let out = classify(&vendor, &cat, &idx, &pol);
    assert_eq!(out.new_items, vec![0]);
    assert!(out.needs_review.is_empty());
    assert!(out.matched.is_empty());
    assert!(out.duplicates.is_empty());
}

#[test]
fn cost_at_threshold_matches_one_beyond_needs_review() {
    let cat = Catalog {
        products: vec![simple_product("SKU1", "012345678912", dec(1200, 2), dec(800, 2))],
    };
    let idx = map_upcs(&cat);
    let pol = DeltaPolicy::Absolute(dec(50, 2));
    let at = vec![vendor_product("V1", "012345678912", dec(850, 2), None)];
    let beyond = vec![vendor_product("V1", "012345678912", dec(851, 2), None)];
    let out_at = classify(&at, &cat, &idx, &pol);
    assert_eq!(out_at.matched, vec![0]);
    assert!(out_at.needs_review.is_empty());
    let out_beyond = classify(&beyond, &cat, &idx, &pol);
    assert_eq!(out_beyond.needs_review, vec![0]);
    assert!(out_beyond.matched.is_empty());
}

#[test]
fn retail_drift_needs_review() {
    let cat = Catalog {
        products: vec![simple_product("SKU1", "012345678912", dec(1200, 2), dec(800, 2))],
    };
    let idx = map_upcs(&cat);
    let pol = DeltaPolicy::Absolute(dec(50, 2));
    let v = vec![vendor_product("V1", "012345678912", dec(800, 2), Some(dec(2000, 2)))];
    let out = classify(&v, &cat, &idx, &pol);
    assert_eq!(out.needs_review, vec![0]);
}

#[test]
fn classification_is_a_total_partition() {
    let cat = Catalog {
        products: vec![
            simple_product("SKU1", "012345678912", dec(1200, 2), dec(800, 2)),
            simple_product("SKU2", "0123456789012", dec(500, 2), dec(300, 2)),
        ],
    };
    let idx = map_upcs(&cat);
    let pol = DeltaPolicy::Absolute(dec(50, 2));
    let vendor = vec![
        vendor_product("V1", "012345678912", dec(800, 2), None),
        vendor_product("V2", "9999999999994", dec(100, 2), None),
        vendor_product("V3", "0123456789012", dec(999, 2), None),
    ];
    let out = classify(&vendor, &cat, &idx, &pol);
    assert_eq!(out.new_items.len() + out.needs_review.len() + out.matched.len(), vendor.len());
    let mut seen = vec![false; vendor.len()];
    for &k in out.new_items.iter().chain(&out.needs_review).chain(&out.matched) {
        assert!(!seen[k], "vendor item in more than one bucket");
        seen[k] = true;
    }
    assert!(seen.iter().all(|&s| s));
}

#[test]
fn disposition_of_matched_item() {
    let cat = Catalog {
        products: vec![simple_product("SKU1", "012345678912", dec(1200, 2), dec(800, 2))],
    };
    let idx = map_upcs(&cat);
    let pol = DeltaPolicy::Absolute(dec(50, 2));
    let v = vendor_product("V1", "012345678912", dec(800, 2), None);
    assert_eq!(disposition(&v, &cat, &idx, &pol), Disposition::Matched);
}

#[test]
fn fix_upc_puts_vendor_barcode_last() {
    let mut abc = simple_product("SKU1", "012345678912", dec(1200, 2), dec(800, 2));
    abc.barcodes = vec![code("111111111111"), code("012345678912"), code("222222222222")];
    let ex = vendor_product("V1", "012345678912", dec(800, 2), None);
    let plan = fix_upc(&abc, &ex);
    assert_eq!(plan.len(), 4);
    assert!(matches!(plan[0], EditOp::ClearBarcodes));
    match (&plan[1], &plan[2], &plan[3]) {
        (EditOp::AddBarcode(a), EditOp::AddBarcode(b), EditOp::AddBarcode(c)) => {
            assert!(a.same_code(&abc.barcodes[0]));
            assert!(b.same_code(&abc.barcodes[2]));
            assert!(c.same_code(&ex.upc));
        }
        _ => panic!("expected three barcode additions"),
    }
}

#[test]
fn fix_up_plan_writes_in_order() {
    let abc = simple_product("SKU1", "012345678912", dec(1200, 2), dec(800, 2));
    let ex = ExportedProduct {
        sku: b"V1".to_vec(),
        upc: code("012345678912"),
        desc: b"thing".to_vec(),
        weight: Some(dec(15, 1)),
        cost: dec(850, 2),
        retail: Some(dec(1300, 2)),
    };
    let plan = fix_up_plan(&abc, &ex);
    let writes: Vec<(u32, Vec<u8>)> = plan
        .iter()
        .filter_map(|op| match op {
            EditOp::WriteField(f, text) => Some((*f, text.clone())),
            _ => None,
        })
        .collect();
    assert_eq!(
        writes,
        vec![
            (15, b"1.5".to_vec()),
            (26, b"8.50".to_vec()),
            (25, b"13.00".to_vec()),
            (39, b"Z".to_vec()),
        ]
    );
}

#[test]
fn fix_group_forces_marker() {
    let abc = simple_product("SKU1", "012345678912", dec(1200, 2), dec(800, 2));
    let ex = vendor_product("V1", "012345678912", dec(800, 2), None);
    let plan = fix_group(&abc, &ex);
    assert_eq!(plan.len(), 1);
    match &plan[0] {
        EditOp::WriteField(f, text) => {
            assert_eq!(*f, 39);
            assert_eq!(text, &b"Z".to_vec());
        }
        _ => panic!("expected a field write"),
    }
}

#[test]
fn alt_sku_goes_to_first_empty_slot() {
    let ex = vendor_product("V1", "012345678912", dec(800, 2), None);
    let slots = vec![b"taken".to_vec(), Vec::new(), b"x".to_vec()];
    match fix_alt_sku(&slots, &ex) {
        Some(EditOp::WriteField(f, text)) => {
            assert_eq!(f, 36);
            assert_eq!(text, b"V1".to_vec());
        }
        _ => panic!("expected a slot write"),
    }
    let full = vec![b"a".to_vec(), b"b".to_vec(), b"c".to_vec()];
    assert!(fix_alt_sku(&full, &ex).is_none());
}

#[test]
fn bucket_report_lists_vendor_skus() {
    let vendor = vec![
        vendor_product("V1", "012345678912", dec(800, 2), None),
        vendor_product("V2", "9999999999994", dec(100, 2), None),
    ];
    let names = bucket_skus(&vendor, &vec![1usize]);
    let text = report_lines(&names);
    assert_eq!(text, b"V2\n".to_vec());
}

#[test]
fn parse_item_row_reads_fixed_columns() {
    let line = item_line("S", "D", "$1.00", "0.50", "", "2");
    let p = parse_item_row(&line, 7).unwrap();
    assert_eq!(p.sku, b"S".to_vec());
    assert_eq!(p.list_price, dec(100, 2));
    assert_eq!(p.cost, dec(50, 2));
    assert_eq!(p.weight, dec(2, 0));
    assert!(p.barcodes.is_empty());
}

#[test]
fn reconcile_runs_end_to_end() {
    let items = vec![
        item_line("SKU1", "Widget", "12.00", "8.00", "012345678912", "1.5"),
        item_line("SKU2", "Gadget", "5.00", "3.00", "0123456789012", "0.5"),
    ];
    let posted = vec![posted_line("SKU1", "2024-01-10", "5")];
    let vendor = vec![
        vendor_product("V1", "012345678912", dec(800, 2), None),
        vendor_product("V2", "9999999999994", dec(100, 2), None),
    ];
    let pol = DeltaPolicy::Absolute(dec(50, 2));
    let run = reconcile(&items, &posted, &vendor, &pol).expect("run should succeed");
    assert_eq!(run.catalog.products.len(), 2);
    assert_eq!(run.partitions.matched, vec![0]);
    assert_eq!(run.partitions.new_items, vec![1]);
    assert!(run.partitions.needs_review.is_empty());
    assert!(run.partitions.duplicates.is_empty());
}

#[test]
fn reconcile_aborts_on_first_bad_row() {
    let items = vec![item_line("SKU1", "Widget", "oops", "8.00", "", "1.5")];
    let vendor = vec![vendor_product("V1", "012345678912", dec(800, 2), None)];
    let pol = DeltaPolicy::Absolute(dec(50, 2));
    assert!(reconcile(&items, &vec![], &vendor, &pol).is_err());
}
