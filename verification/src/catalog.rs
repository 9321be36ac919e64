use vstd::prelude::*;
use vstd::pervasive::VecAdditionalExecFns;
use crate::codec::{Barcode, all_digits, repair_spec, repair_or_reject, bytes_equal, clone_bytes};
use crate::decimal::{Decimal, is_digit_byte, money_of, parse_dec_spec, parse_decimal, strip_money};
use crate::product::{CalendarDate, Catalog, CatalogProduct, ProductView, clone_barcodes};

verus! {

/// The tab byte that separates the fixed columns.
pub const TAB: u8 = 9;

/// The comma that joins barcodes inside their column.
pub const COMMA: u8 = 44;

/// The fields of a separated line: empty input is one empty field; a
/// separator ends the current field and opens a new one.
pub open spec fn split_bytes(s: Seq<u8>, sep: u8) -> Seq<Seq<u8>>
    decreases s.len(),
{
    if s.len() == 0 {
        seq![Seq::<u8>::empty()]
    } else if s.last() == sep {
        split_bytes(s.drop_last(), sep).push(Seq::<u8>::empty())
    } else {
        let pre = split_bytes(s.drop_last(), sep);
        pre.update(pre.len() - 1, pre.last().push(s.last()))
    }
}

pub proof fn lemma_split_nonempty(s: Seq<u8>, sep: u8)
    ensures
        split_bytes(s, sep).len() >= 1,
    decreases s.len(),
{
    if s.len() > 0 {
        lemma_split_nonempty(s.drop_last(), sep);
    }
}

/// Splits a line into its fields at `sep`.
pub fn split_fields(line: &Vec<u8>, sep: u8) -> (r: Vec<Vec<u8>>)
    ensures
        r@.map_values(|t: Vec<u8>| t@) == split_bytes(line@, sep),
{
    let mut done: Vec<Vec<u8>> = Vec::new();
    let mut cur: Vec<u8> = Vec::new();
    let mut i: usize = 0;
    while i < line.len()
        invariant
            i <= line@.len(),
            split_bytes(line@.subrange(0, i as int), sep) == done@.map_values(
                |t: Vec<u8>| t@,
            ).push(cur@),
        decreases line@.len() - i,
    {
        let b: u8 = line[i];
        let ghost pre = line@.subrange(0, i as int);
        let ghost model = split_bytes(pre, sep);
        proof {
            assert(line@.subrange(0, i + 1).drop_last() =~= pre);
            lemma_split_nonempty(pre, sep);
        }
        if b == sep {
            done.push(cur);
            cur = Vec::new();
            proof {
                assert(done@.map_values(|t: Vec<u8>| t@) =~= model);
                assert(split_bytes(line@.subrange(0, i + 1), sep) =~= done@.map_values(
                    |t: Vec<u8>| t@,
                ).push(cur@));
            }
        } else {
            cur.push(b);
            proof {
                let upd = model.update(model.len() - 1, model.last().push(b));
                assert(split_bytes(line@.subrange(0, i + 1), sep) == upd);
                assert(upd =~= done@.map_values(|t: Vec<u8>| t@).push(cur@));
            }
        }
        i = i + 1;
    }
    proof {
        assert(line@.subrange(0, line@.len() as int) =~= line@);
    }
    done.push(cur);
    proof {
        assert(done@.map_values(|t: Vec<u8>| t@) =~= split_bytes(line@, sep));
    }
    done
}

/// Upper-case for ASCII letters; other bytes pass unchanged.
pub open spec fn upper_byte(b: u8) -> u8 {
    if 97 <= b <= 122 {
        (b - 32) as u8
    } else {
        b
    }
}

pub open spec fn ascii_upper(s: Seq<u8>) -> Seq<u8> {
    Seq::new(s.len(), |i: int| upper_byte(s[i]))
}

/// Upper-cases the ASCII letters of `s`.
pub fn to_upper(s: &Vec<u8>) -> (r: Vec<u8>)
    ensures
        r@ == ascii_upper(s@),
{
    let mut r: Vec<u8> = Vec::new();
    let mut i: usize = 0;
    while i < s.len()
        invariant
            i <= s@.len(),
            r@.len() == i,
            forall|t: int| 0 <= t < i ==> r@[t] == upper_byte(s@[t]),
        decreases s@.len() - i,
    {
        let b: u8 = s[i];
        if 97 <= b && b <= 122 {
            r.push(b - 32);
        } else {
            r.push(b);
        }
        i = i + 1;
    }
    proof {
        assert(r@ =~= ascii_upper(s@));
    }
    r
}

/// The digit values (0 through 9) of the digit bytes of `s`, in order;
/// every other byte is dropped.
pub open spec fn digit_values_of(s: Seq<u8>) -> Seq<u8>
    decreases s.len(),
{
    if s.len() == 0 {
        Seq::empty()
    } else if is_digit_byte(s.last()) {
        digit_values_of(s.drop_last()).push((s.last() - 48) as u8)
    } else {
        digit_values_of(s.drop_last())
    }
}

pub proof fn lemma_digit_values_are_digits(s: Seq<u8>)
    ensures
        all_digits(digit_values_of(s)),
    decreases s.len(),
{
    if s.len() > 0 {
        lemma_digit_values_are_digits(s.drop_last());
        let ds = digit_values_of(s);
        let pre = digit_values_of(s.drop_last());
        if is_digit_byte(s.last()) {
            assert forall|t: int| 0 <= t < ds.len() implies ds[t] < 10 by {
                if t < pre.len() {
                    assert(ds[t] == pre[t]);
                } else {
                    assert(ds[t] == (s.last() - 48) as u8);
                }
            }
        }
    }
}

/// Keeps the digits of `s`, as digit values.
pub fn extract_digits(s: &Vec<u8>) -> (r: Vec<u8>)
    ensures
        r@ == digit_values_of(s@),
        all_digits(r@),
{
    let mut r: Vec<u8> = Vec::new();
    let mut i: usize = 0;
    while i < s.len()
        invariant
            i <= s@.len(),
            r@ == digit_values_of(s@.subrange(0, i as int)),
        decreases s@.len() - i,
    {
        let b: u8 = s[i];
        proof {
            assert(s@.subrange(0, i + 1).drop_last() =~= s@.subrange(0, i as int));
        }
        if 48 <= b && b <= 57 {
            r.push(b - 48);
        }
        i = i + 1;
    }
    proof {
        assert(s@.subrange(0, s@.len() as int) =~= s@);
        lemma_digit_values_are_digits(s@);
    }
    r
}

/// What a last-sold text means: a permissive `YYYY-MM-DD` read. Anything
/// not of that shape, or with a month outside 1..=12 or a day outside
/// 1..=31, is absent rather than an error.
pub open spec fn date_spec(s: Seq<u8>) -> Option<CalendarDate> {
    if s.len() == 10 && is_digit_byte(s[0]) && is_digit_byte(s[1]) && is_digit_byte(s[2])
        && is_digit_byte(s[3]) && s[4] == 45 && is_digit_byte(s[5]) && is_digit_byte(s[6]) && s[7]
        == 45 && is_digit_byte(s[8]) && is_digit_byte(s[9]) {
        let y = (s[0] - 48) * 1000 + (s[1] - 48) * 100 + (s[2] - 48) * 10 + (s[3] - 48);
        let m = (s[5] - 48) * 10 + (s[6] - 48);
        let d = (s[8] - 48) * 10 + (s[9] - 48);
        if 1 <= m <= 12 && 1 <= d <= 31 {
            Some(CalendarDate { year: y as u32, month: m as u32, day: d as u32 })
        } else {
            None
        }
    } else {
        None
    }
}

/// Reads a permissive `YYYY-MM-DD` date.
pub fn parse_date(s: &Vec<u8>) -> (r: Option<CalendarDate>)
    ensures
        r == date_spec(s@),
{
    if s.len() != 10 {
        return None;
    }
    let mut i: usize = 0;
    while i < 10
        invariant
            s@.len() == 10,
            i <= 10,
            forall|t: int| 0 <= t < i && t != 4 && t != 7 ==> is_digit_byte(s@[t]),
            forall|t: int| 0 <= t < i && (t == 4 || t == 7) ==> s@[t] == 45,
        decreases 10 - i,
    {
        let b: u8 = s[i];
        if i == 4 || i == 7 {
            if b != 45 {
                return None;
            }
        } else {
            if !(48 <= b && b <= 57) {
                return None;
            }
        }
        i = i + 1;
    }
    let y: u32 = (s[0] - 48) as u32 * 1000 + (s[1] - 48) as u32 * 100 + (s[2] - 48) as u32 * 10 + (
    s[3] - 48) as u32;
    let m: u32 = (s[5] - 48) as u32 * 10 + (s[6] - 48) as u32;
    let d: u32 = (s[8] - 48) as u32 * 10 + (s[9] - 48) as u32;
    if 1 <= m && m <= 12 && 1 <= d && d <= 31 {
        Some(CalendarDate { year: y, month: m, day: d })
    } else {
        None
    }
}


/// The fields ingestion reads, named so that an error can say which one a
/// row is missing or holds malformed.
#[derive(Clone, Copy, Debug, PartialEq, Eq, Structural)]
pub enum FieldName {
    Sku,
    Description,
    ListPrice,
    Cost,
    BarcodeList,
    Weight,
    LastSoldDate,
    Stock,
}

/// The mathematical content of an ingestion error.
#[verifier::ext_equal]
pub enum RowError {
    MissingField { row: int, field: FieldName },
    MalformedValue { row: int, field: FieldName, raw: Seq<u8> },
    MissingCrossReference { row: int, sku: Seq<u8> },
}

/// An ingestion error, carrying enough context (1-indexed row number per
/// source, field name, raw text or sku) to locate the offending line.
#[derive(Debug)]
pub enum ParseError {
    MissingField { row: usize, field: FieldName },
    MalformedValue { row: usize, field: FieldName, raw: Vec<u8> },
    MissingCrossReference { row: usize, sku: Vec<u8> },
}

impl View for ParseError {
    type V = RowError;

    open spec fn view(&self) -> RowError {
        match *self {
            ParseError::MissingField { row, field } => RowError::MissingField {
                row: row as int,
                field,
            },
            ParseError::MalformedValue { row, field, raw } => RowError::MalformedValue {
                row: row as int,
                field,
                raw: raw@,
            },
            ParseError::MissingCrossReference { row, sku } => RowError::MissingCrossReference {
                row: row as int,
                sku: sku@,
            },
        }
    }
}

/// The codes that survive repairing each comma-joined token of a barcode
/// field, in order; unrepairable tokens are dropped.
pub open spec fn repaired_list(toks: Seq<Seq<u8>>) -> Seq<Seq<u8>>
    decreases toks.len(),
{
    if toks.len() == 0 {
        Seq::empty()
    } else {
        let pre = repaired_list(toks.drop_last());
        match repair_spec(digit_values_of(toks.last())) {
            Some(c) => pre.push(c),
            None => pre,
        }
    }
}

/// What one item row yields: the row must reach its fixed columns (0 sku,
/// 1 description, 6 list price, 8 cost, 43 barcode list, 45 weight), its
/// three amounts must parse as exact decimals after canonicalization, and
/// its barcode tokens are repaired or dropped. Stock starts at zero and
/// last-sold absent until a posted row merges in.
pub open spec fn item_row_spec(line: Seq<u8>, rownum: int) -> Result<ProductView, RowError> {
    let fields = split_bytes(line, TAB);
    if fields.len() < 1 {
        Err(RowError::MissingField { row: rownum, field: FieldName::Sku })
    } else if fields.len() < 2 {
        Err(RowError::MissingField { row: rownum, field: FieldName::Description })
    } else if fields.len() < 7 {
        Err(RowError::MissingField { row: rownum, field: FieldName::ListPrice })
    } else if fields.len() < 9 {
        Err(RowError::MissingField { row: rownum, field: FieldName::Cost })
    } else if fields.len() < 44 {
        Err(RowError::MissingField { row: rownum, field: FieldName::BarcodeList })
    } else if fields.len() < 46 {
        Err(RowError::MissingField { row: rownum, field: FieldName::Weight })
    } else if parse_dec_spec(money_of(fields[6])) is None {
        Err(RowError::MalformedValue { row: rownum, field: FieldName::ListPrice, raw: fields[6] })
    } else if parse_dec_spec(money_of(fields[8])) is None {
        Err(RowError::MalformedValue { row: rownum, field: FieldName::Cost, raw: fields[8] })
    } else if parse_dec_spec(money_of(fields[45])) is None {
        Err(RowError::MalformedValue { row: rownum, field: FieldName::Weight, raw: fields[45] })
    } else {
        Ok(
            ProductView {
                sku: fields[0],
                description: fields[1],
                barcodes: repaired_list(split_bytes(fields[43], COMMA)),
                list_price: parse_dec_spec(money_of(fields[6]))->Some_0,
                cost: parse_dec_spec(money_of(fields[8]))->Some_0,
                stock: Decimal { mantissa: 0, scale: 0 },
                weight: parse_dec_spec(money_of(fields[45]))->Some_0,
                last_sold: None,
            },
        )
    }
}

/// The position of the record whose sku matches `sku`, ignoring ASCII
/// case, or -1: sku is a case-insensitive identity.
pub open spec fn sku_index(prods: Seq<ProductView>, sku: Seq<u8>) -> int
    decreases prods.len(),
{
    if prods.len() == 0 {
        -1
    } else if ascii_upper(prods.last().sku) == ascii_upper(sku) {
        prods.len() - 1
    } else {
        sku_index(prods.drop_last(), sku)
    }
}

pub proof fn lemma_sku_index_props(prods: Seq<ProductView>, sku: Seq<u8>)
    ensures
        -1 <= sku_index(prods, sku) < prods.len(),
        sku_index(prods, sku) >= 0 ==> ascii_upper(prods[sku_index(prods, sku)].sku)
            == ascii_upper(sku),
        sku_index(prods, sku) == -1 ==> forall|k: int|
            0 <= k < prods.len() ==> ascii_upper((#[trigger] prods[k]).sku) != ascii_upper(sku),
    decreases prods.len(),
{
    if prods.len() > 0 {
        lemma_sku_index_props(prods.drop_last(), sku);
        if ascii_upper(prods.last().sku) != ascii_upper(sku) {
            assert forall|k: int|
                0 <= k < prods.len() && sku_index(prods, sku) == -1 implies ascii_upper(
                (#[trigger] prods[k]).sku,
            ) != ascii_upper(sku) by {
                if k < prods.len() - 1 {
                    assert(prods.drop_last()[k] == prods[k]);
                }
            }
        }
    }
}

/// No two records share a sku, even ignoring ASCII case.
pub open spec fn skus_unique(prods: Seq<ProductView>) -> bool {
    forall|k1: int, k2: int|
        0 <= k1 < k2 < prods.len() ==> ascii_upper(prods[k1].sku) != ascii_upper(prods[k2].sku)
}

/// A parsed item row replaces the record with its sku, or extends the
/// catalog when its sku is new.
pub open spec fn upsert(prods: Seq<ProductView>, p: ProductView) -> Seq<ProductView> {
    let k = sku_index(prods, p.sku);
    if k >= 0 {
        prods.update(k, p)
    } else {
        prods.push(p)
    }
}

/// The catalog that the first `n` item rows build, or the first error. Row
/// numbers are 1-indexed.
pub open spec fn ingest_items_spec(lines: Seq<Seq<u8>>, n: int) -> Result<Seq<ProductView>, RowError>
    decreases n,
{
    if n <= 0 {
        Ok(Seq::empty())
    } else {
        match ingest_items_spec(lines, n - 1) {
            Err(e) => Err(e),
            Ok(pre) => match item_row_spec(lines[n - 1], n) {
                Err(e) => Err(e),
                Ok(p) => Ok(upsert(pre, p)),
            },
        }
    }
}

/// The mathematical content of one posted row.
#[verifier::ext_equal]
pub struct PostedView {
    pub sku: Seq<u8>,
    pub last_sold: Option<CalendarDate>,
    pub stock: Decimal,
}

/// What one posted row yields: the row must reach its fixed columns (0
/// sku, 1 last-sold date, 19 stock); the stock must parse as an exact
/// decimal; the date is read permissively, absent when unreadable.
pub open spec fn posted_row_spec(line: Seq<u8>, rownum: int) -> Result<PostedView, RowError> {
    let fields = split_bytes(line, TAB);
    if fields.len() < 1 {
        Err(RowError::MissingField { row: rownum, field: FieldName::Sku })
    } else if fields.len() < 2 {
        Err(RowError::MissingField { row: rownum, field: FieldName::LastSoldDate })
    } else if fields.len() < 20 {
        Err(RowError::MissingField { row: rownum, field: FieldName::Stock })
    } else if parse_dec_spec(money_of(fields[19])) is None {
        Err(RowError::MalformedValue { row: rownum, field: FieldName::Stock, raw: fields[19] })
    } else {
        Ok(
            PostedView {
                sku: fields[0],
                last_sold: date_spec(fields[1]),
                stock: parse_dec_spec(money_of(fields[19]))->Some_0,
            },
        )
    }
}

/// Merges one posted row into the catalog: its sku must name an existing
/// record; that record's sku is upper-cased and its stock and last-sold
/// are overwritten.
pub open spec fn merge_posted(prods: Seq<ProductView>, pv: PostedView, rownum: int) -> Result<
    Seq<ProductView>,
    RowError,
> {
    let k = sku_index(prods, pv.sku);
    if k < 0 {
        Err(RowError::MissingCrossReference { row: rownum, sku: pv.sku })
    } else {
        Ok(
            prods.update(
                k,
                ProductView {
                    sku: ascii_upper(prods[k].sku),
                    description: prods[k].description,
                    barcodes: prods[k].barcodes,
                    list_price: prods[k].list_price,
                    cost: prods[k].cost,
                    stock: pv.stock,
                    weight: prods[k].weight,
                    last_sold: pv.last_sold,
                },
            ),
        )
    }
}

/// The catalog after the first `n` posted rows are merged into `prods0`,
/// or the first error.
pub open spec fn ingest_posted_spec(
    prods0: Seq<ProductView>,
    lines: Seq<Seq<u8>>,
    n: int,
) -> Result<Seq<ProductView>, RowError>
    decreases n,
{
    if n <= 0 {
        Ok(prods0)
    } else {
        match ingest_posted_spec(prods0, lines, n - 1) {
            Err(e) => Err(e),
            Ok(pre) => match posted_row_spec(lines[n - 1], n) {
                Err(e) => Err(e),
                Ok(pv) => merge_posted(pre, pv, n),
            },
        }
    }
}

/// What ingestion yields from the two sources: the item rows build the
/// catalog, then every posted row merges into it; the first error anywhere
/// aborts the whole run.
pub open spec fn ingest_spec(item_lines: Seq<Seq<u8>>, posted_lines: Seq<Seq<u8>>) -> Result<
    Seq<ProductView>,
    RowError,
> {
    match ingest_items_spec(item_lines, item_lines.len() as int) {
        Err(e) => Err(e),
        Ok(prods) => ingest_posted_spec(prods, posted_lines, posted_lines.len() as int),
    }
}

pub proof fn lemma_items_err_persists(lines: Seq<Seq<u8>>, n: int, m: int)
    requires
        0 <= n <= m,
        ingest_items_spec(lines, n) is Err,
    ensures
        ingest_items_spec(lines, m) == ingest_items_spec(lines, n),
    decreases m,
{
    if m > n {
        lemma_items_err_persists(lines, n, m - 1);
    }
}

pub proof fn lemma_posted_err_persists(prods0: Seq<ProductView>, lines: Seq<Seq<u8>>, n: int, m: int)
    requires
        0 <= n <= m,
        ingest_posted_spec(prods0, lines, n) is Err,
    ensures
        ingest_posted_spec(prods0, lines, m) == ingest_posted_spec(prods0, lines, n),
    decreases m,
{
    if m > n {
        lemma_posted_err_persists(prods0, lines, n, m - 1);
    }
}


/// Parses one item row into a catalog record.
pub fn parse_item_row(line: &Vec<u8>, rownum: usize) -> (r: Result<CatalogProduct, ParseError>)
    ensures
        match r {
            Ok(p) => p.wf() && item_row_spec(line@, rownum as int) == Ok::<ProductView, RowError>(
                p@,
            ),
            Err(e) => item_row_spec(line@, rownum as int) == Err::<ProductView, RowError>(e@),
        },
{
    let fields = split_fields(line, TAB);
    let ghost fv = split_bytes(line@, TAB);
    if fields.len() < 1 {
        return Err(ParseError::MissingField { row: rownum, field: FieldName::Sku });
    }
    if fields.len() < 2 {
        return Err(ParseError::MissingField { row: rownum, field: FieldName::Description });
    }
    if fields.len() < 7 {
        return Err(ParseError::MissingField { row: rownum, field: FieldName::ListPrice });
    }
    if fields.len() < 9 {
        return Err(ParseError::MissingField { row: rownum, field: FieldName::Cost });
    }
    if fields.len() < 44 {
        return Err(ParseError::MissingField { row: rownum, field: FieldName::BarcodeList });
    }
    if fields.len() < 46 {
        return Err(ParseError::MissingField { row: rownum, field: FieldName::Weight });
    }
    let list_text = strip_money(&fields[6]);
    let list = match parse_decimal(&list_text) {
        Some(d) => d,
        None => {
            return Err(
                ParseError::MalformedValue {
                    row: rownum,
                    field: FieldName::ListPrice,
                    raw: clone_bytes(&fields[6]),
                },
            );
        },
    };
    let cost_text = strip_money(&fields[8]);
    let cost = match parse_decimal(&cost_text) {
        Some(d) => d,
        None => {
            return Err(
                ParseError::MalformedValue {
                    row: rownum,
                    field: FieldName::Cost,
                    raw: clone_bytes(&fields[8]),
                },
            );
        },
    };
    let weight_text = strip_money(&fields[45]);
    let weight = match parse_decimal(&weight_text) {
        Some(d) => d,
        None => {
            return Err(
                ParseError::MalformedValue {
                    row: rownum,
                    field: FieldName::Weight,
                    raw: clone_bytes(&fields[45]),
                },
            );
        },
    };
    let toks = split_fields(&fields[43], COMMA);
    let ghost tv = split_bytes(fv[43], COMMA);
    proof {
        assert(fields@[43]@ == fv[43]);
    }
    let mut barcodes: Vec<Barcode> = Vec::new();
    let mut t: usize = 0;
    while t < toks.len()
        invariant
            toks@.map_values(|x: Vec<u8>| x@) == tv,
            t <= toks@.len(),
            barcodes@.map_values(|b: Barcode| b@) == repaired_list(tv.subrange(0, t as int)),
            forall|q: int| 0 <= q < barcodes@.len() ==> (#[trigger] barcodes@[q]).wf(),
        decreases toks@.len() - t,
    {
        let digits = extract_digits(&toks[t]);
        proof {
            assert(tv.subrange(0, t + 1).drop_last() =~= tv.subrange(0, t as int));
            assert(tv.subrange(0, t + 1).last() == tv[t as int]);
            assert(tv[t as int] == toks@[t as int]@);
        }
        let ghost before = barcodes@;
        match repair_or_reject(&digits) {
            Some(b) => {
                barcodes.push(b);
                proof {
                    assert(barcodes@.map_values(|b: Barcode| b@) =~= repaired_list(
                        tv.subrange(0, t + 1),
                    ));
                }
            },
            None => {
                proof {
                    assert(barcodes@.map_values(|b: Barcode| b@) =~= repaired_list(
                        tv.subrange(0, t + 1),
                    ));
                }
            },
        }
        t = t + 1;
    }
    proof {
        assert(tv.subrange(0, tv.len() as int) =~= tv);
    }
    let p = CatalogProduct {
        sku: clone_bytes(&fields[0]),
        description: clone_bytes(&fields[1]),
        barcodes,
        list_price: list,
        cost,
        stock: Decimal { mantissa: 0, scale: 0 },
        weight,
        last_sold: None,
    };
    proof {
        assert(fields@[0]@ == fv[0]);
        assert(fields@[1]@ == fv[1]);
        assert(fields@[6]@ == fv[6]);
        assert(fields@[8]@ == fv[8]);
        assert(fields@[45]@ == fv[45]);
        assert(p@ =~= item_row_spec(line@, rownum as int)->Ok_0);
    }
    Ok(p)
}

/// One parsed posted row.
pub struct PostedRecord {
    pub sku: Vec<u8>,
    pub last_sold: Option<CalendarDate>,
    pub stock: Decimal,
}

impl View for PostedRecord {
    type V = PostedView;

    open spec fn view(&self) -> PostedView {
        PostedView { sku: self.sku@, last_sold: self.last_sold, stock: self.stock }
    }
}

/// Parses one posted row.
pub fn parse_posted_row(line: &Vec<u8>, rownum: usize) -> (r: Result<PostedRecord, ParseError>)
    ensures
        match r {
            Ok(rec) => rec.stock.wf() && posted_row_spec(line@, rownum as int) == Ok::<
                PostedView,
                RowError,
            >(rec@),
            Err(e) => posted_row_spec(line@, rownum as int) == Err::<PostedView, RowError>(e@),
        },
{
    let fields = split_fields(line, TAB);
    let ghost fv = split_bytes(line@, TAB);
    if fields.len() < 1 {
        return Err(ParseError::MissingField { row: rownum, field: FieldName::Sku });
    }
    if fields.len() < 2 {
        return Err(ParseError::MissingField { row: rownum, field: FieldName::LastSoldDate });
    }
    if fields.len() < 20 {
        return Err(ParseError::MissingField { row: rownum, field: FieldName::Stock });
    }
    let stock_text = strip_money(&fields[19]);
    let stock = match parse_decimal(&stock_text) {
        Some(d) => d,
        None => {
            return Err(
                ParseError::MalformedValue {
                    row: rownum,
                    field: FieldName::Stock,
                    raw: clone_bytes(&fields[19]),
                },
            );
        },
    };
    let last_sold = parse_date(&fields[1]);
    let rec = PostedRecord { sku: clone_bytes(&fields[0]), last_sold, stock };
    proof {
        assert(fields@[0]@ == fv[0]);
        assert(fields@[1]@ == fv[1]);
        assert(fields@[19]@ == fv[19]);
        assert(rec@ =~= posted_row_spec(line@, rownum as int)->Ok_0);
    }
    Ok(rec)
}

/// Finds the record whose sku matches, ignoring ASCII case.
fn find_by_sku(products: &Vec<CatalogProduct>, sku: &Vec<u8>) -> (r: Option<usize>)
    requires
        skus_unique(products@.map_values(|p: CatalogProduct| p@)),
    ensures
        ({
            let prods = products@.map_values(|p: CatalogProduct| p@);
            match r {
                Some(k) => k < products@.len() && sku_index(prods, sku@) == k as int,
                None => sku_index(prods, sku@) == -1,
            }
        }),
{
    let ghost prods = products@.map_values(|p: CatalogProduct| p@);
    let us = to_upper(sku);
    let mut k: usize = 0;
    while k < products.len()
        invariant
            prods == products@.map_values(|p: CatalogProduct| p@),
            skus_unique(prods),
            us@ == ascii_upper(sku@),
            k <= products@.len(),
            forall|t: int| 0 <= t < k ==> ascii_upper((#[trigger] prods[t]).sku) != ascii_upper(sku@),
        decreases products@.len() - k,
    {
        let uk = to_upper(&products[k].sku);
        if bytes_equal(&uk, &us) {
            proof {
                lemma_sku_index_props(prods, sku@);
                assert(prods[k as int].sku == products@[k as int].sku@);
                let idx = sku_index(prods, sku@);
                if idx == -1 {
                    assert(ascii_upper(prods[k as int].sku) != ascii_upper(sku@));
                    assert(false);
                }
                if idx != k as int {
                    if idx < k as int {
                        assert(ascii_upper(prods[idx].sku) != ascii_upper(prods[k as int].sku));
                    } else {
                        assert(ascii_upper(prods[k as int].sku) != ascii_upper(prods[idx].sku));
                    }
                    assert(false);
                }
            }
            return Some(k);
        }
        k = k + 1;
    }
    proof {
        lemma_sku_index_props(prods, sku@);
        let idx = sku_index(prods, sku@);
        if idx >= 0 {
            assert(ascii_upper(prods[idx].sku) != ascii_upper(sku@));
            assert(false);
        }
    }
    None
}

/// A record replaces the one sharing its sku, or extends the catalog.
fn upsert_product(products: Vec<CatalogProduct>, p: CatalogProduct) -> (r: Vec<CatalogProduct>)
    requires
        p.wf(),
        forall|k: int| 0 <= k < products@.len() ==> (#[trigger] products@[k]).wf(),
        skus_unique(products@.map_values(|q: CatalogProduct| q@)),
    ensures
        r@.map_values(|q: CatalogProduct| q@) == upsert(
            products@.map_values(|q: CatalogProduct| q@),
            p@,
        ),
        forall|k: int| 0 <= k < r@.len() ==> (#[trigger] r@[k]).wf(),
        skus_unique(r@.map_values(|q: CatalogProduct| q@)),
{
    let ghost prods = products@.map_values(|q: CatalogProduct| q@);
    let found = find_by_sku(&products, &p.sku);
    let mut ps = products;
    match found {
        Some(k) => {
            proof {
                lemma_sku_index_props(prods, p.sku@);
            }
            ps.set(k, p);
            proof {
                assert(ps@.map_values(|q: CatalogProduct| q@) =~= prods.update(k as int, p@));
                let post = ps@.map_values(|q: CatalogProduct| q@);
                assert forall|k1: int, k2: int|
                    0 <= k1 < k2 < post.len() implies ascii_upper((#[trigger] post[k1]).sku)
                    != ascii_upper((#[trigger] post[k2]).sku) by {
                    assert(ascii_upper(prods[k as int].sku) == ascii_upper(p@.sku));
                }
            }
        },
        None => {
            proof {
                lemma_sku_index_props(prods, p.sku@);
            }
            ps.push(p);
            proof {
                assert(ps@.map_values(|q: CatalogProduct| q@) =~= prods.push(p@));
                let post = ps@.map_values(|q: CatalogProduct| q@);
                assert forall|k1: int, k2: int|
                    0 <= k1 < k2 < post.len() implies ascii_upper((#[trigger] post[k1]).sku)
                    != ascii_upper((#[trigger] post[k2]).sku) by {
                    if k2 == post.len() - 1 {
                        assert(ascii_upper(prods[k1].sku) != ascii_upper(p@.sku));
                    }
                }
            }
        },
    }
    ps
}

pub proof fn lemma_upper_idempotent(s: Seq<u8>)
    ensures
        ascii_upper(ascii_upper(s)) == ascii_upper(s),
{
    assert(ascii_upper(ascii_upper(s)) =~= ascii_upper(s));
}

/// Ingests the two legacy sources into a catalog: the item rows build the
/// records (later rows replacing earlier ones with the same sku), then
/// every posted row merges stock and last-sold into the record its sku
/// names, upper-casing that record's sku. The first error aborts the whole
/// run: a partial catalog is never used.
pub fn ingest(item_rows: &Vec<Vec<u8>>, posted_rows: &Vec<Vec<u8>>) -> (r: Result<
    Catalog,
    ParseError,
>)
    requires
        item_rows@.len() < usize::MAX,
        posted_rows@.len() < usize::MAX,
    ensures
        match r {
            Ok(cat) => cat.wf() && ingest_spec(
                item_rows@.map_values(|l: Vec<u8>| l@),
                posted_rows@.map_values(|l: Vec<u8>| l@),
            ) == Ok::<Seq<ProductView>, RowError>(cat.products@.map_values(|p: CatalogProduct| p@)),
            Err(e) => ingest_spec(
                item_rows@.map_values(|l: Vec<u8>| l@),
                posted_rows@.map_values(|l: Vec<u8>| l@),
            ) == Err::<Seq<ProductView>, RowError>(e@),
        },
{
    let ghost ilines = item_rows@.map_values(|l: Vec<u8>| l@);
    let ghost plines = posted_rows@.map_values(|l: Vec<u8>| l@);
    let mut products: Vec<CatalogProduct> = Vec::new();
    let mut n: usize = 0;
    proof {
        assert(products@.map_values(|p: CatalogProduct| p@) =~= Seq::<ProductView>::empty());
    }
    while n < item_rows.len()
        invariant
            ilines == item_rows@.map_values(|l: Vec<u8>| l@),
            plines == posted_rows@.map_values(|l: Vec<u8>| l@),
            item_rows@.len() < usize::MAX,
            n <= item_rows@.len(),
            ingest_items_spec(ilines, n as int) == Ok::<Seq<ProductView>, RowError>(
                products@.map_values(|p: CatalogProduct| p@),
            ),
            forall|k: int| 0 <= k < products@.len() ==> (#[trigger] products@[k]).wf(),
            skus_unique(products@.map_values(|p: CatalogProduct| p@)),
        decreases item_rows@.len() - n,
    {
        proof {
            assert(ilines[n as int] == item_rows@[n as int]@);
        }
        match parse_item_row(&item_rows[n], n + 1) {
            Err(e) => {
                proof {
                    assert(ingest_items_spec(ilines, n + 1) == Err::<Seq<ProductView>, RowError>(
                        e@,
                    ));
                    lemma_items_err_persists(ilines, n + 1, ilines.len() as int);
                }
                return Err(e);
            },
            Ok(p) => {
                products = upsert_product(products, p);
            },
        }
        n = n + 1;
    }
    let ghost prods0 = products@.map_values(|p: CatalogProduct| p@);
    let mut m: usize = 0;
    while m < posted_rows.len()
        invariant
            ilines == item_rows@.map_values(|l: Vec<u8>| l@),
            plines == posted_rows@.map_values(|l: Vec<u8>| l@),
            posted_rows@.len() < usize::MAX,
            m <= posted_rows@.len(),
            ingest_items_spec(ilines, ilines.len() as int) == Ok::<Seq<ProductView>, RowError>(
                prods0,
            ),
            ingest_posted_spec(prods0, plines, m as int) == Ok::<Seq<ProductView>, RowError>(
                products@.map_values(|p: CatalogProduct| p@),
            ),
            forall|k: int| 0 <= k < products@.len() ==> (#[trigger] products@[k]).wf(),
            skus_unique(products@.map_values(|p: CatalogProduct| p@)),
        decreases posted_rows@.len() - m,
    {
        proof {
            assert(plines[m as int] == posted_rows@[m as int]@);
        }
        let ghost cur = products@.map_values(|p: CatalogProduct| p@);
        match parse_posted_row(&posted_rows[m], m + 1) {
            Err(e) => {
                proof {
                    assert(ingest_posted_spec(prods0, plines, m + 1) == Err::<
                        Seq<ProductView>,
                        RowError,
                    >(e@));
                    lemma_posted_err_persists(prods0, plines, m + 1, plines.len() as int);
                }
                return Err(e);
            },
            Ok(rec) => {
                match find_by_sku(&products, &rec.sku) {
                    None => {
                        let err = ParseError::MissingCrossReference { row: m + 1, sku: rec.sku };
                        proof {
                            assert(merge_posted(cur, rec@, m + 1) == Err::<
                                Seq<ProductView>,
                                RowError,
                            >(err@));
                            assert(ingest_posted_spec(prods0, plines, m + 1) == Err::<
                                Seq<ProductView>,
                                RowError,
                            >(err@));
                            lemma_posted_err_persists(prods0, plines, m + 1, plines.len() as int);
                        }
                        return Err(err);
                    },
                    Some(k) => {
                        proof {
                            lemma_sku_index_props(cur, rec.sku@);
                        }
                        let upd = CatalogProduct {
                            sku: to_upper(&products[k].sku),
                            description: clone_bytes(&products[k].description),
                            barcodes: clone_barcodes(&products[k].barcodes),
                            list_price: products[k].list_price,
                            cost: products[k].cost,
                            stock: rec.stock,
                            weight: products[k].weight,
                            last_sold: rec.last_sold,
                        };
                        proof {
                            assert(upd@.barcodes =~= cur[k as int].barcodes);
                            assert(upd@ =~= merge_posted(cur, rec@, m + 1)->Ok_0[k as int]);
                        }
                        products.set(k, upd);
                        proof {
                            assert(products@.map_values(|p: CatalogProduct| p@) =~= cur.update(
                                k as int,
                                upd@,
                            ));
                            assert(ingest_posted_spec(prods0, plines, m + 1) == Ok::<
                                Seq<ProductView>,
                                RowError,
                            >(products@.map_values(|p: CatalogProduct| p@)));
                            let post = products@.map_values(|p: CatalogProduct| p@);
                            lemma_upper_idempotent(cur[k as int].sku);
                            assert forall|k1: int, k2: int|
                                0 <= k1 < k2 < post.len() implies ascii_upper(
                                (#[trigger] post[k1]).sku,
                            ) != ascii_upper((#[trigger] post[k2]).sku) by {
                                assert(ascii_upper(post[k as int].sku) == ascii_upper(
                                    cur[k as int].sku,
                                ));
                            }
                        }
                    },
                }
            },
        }
        m = m + 1;
    }
    let cat = Catalog { products };
    proof {
        let prods = cat.products@.map_values(|p: CatalogProduct| p@);
        assert forall|k1: int, k2: int|
            0 <= k1 < k2 < cat.products@.len() implies cat.products@[k1].sku@
            != cat.products@[k2].sku@ by {
            if cat.products@[k1].sku@ == cat.products@[k2].sku@ {
                assert(ascii_upper(prods[k1].sku) == ascii_upper(prods[k2].sku));
            }
        }
    }
    Ok(cat)
}

} // verus!
