use vstd::prelude::*;

use crate::models::{card_from_export, ArchidektCard, Card};

verus! {

/// Rows per page of a collection export.
pub const PAGE_SIZE: u32 = 2500;

/// A request for one page of a collection export.
pub struct ExportRequest {
    pub fields: Vec<String>,
    pub game: u8,
    pub page: u8,
    pub page_size: u32,
}

/// The columns an export is asked for, in order: card name, edition code,
/// collector number and card identifier.
pub open spec fn export_fields_spec() -> Seq<Seq<char>> {
    seq![
        "card__oracleCard__name"@,
        "card__edition__editioncode"@,
        "card__collectorNumber"@,
        "card__uid"@,
    ]
}

/// The request for page `page` of a collection export.
pub open spec fn is_export_request(r: ExportRequest, page: u8) -> bool {
    &&& r.fields@.map_values(|f: String| f@) == export_fields_spec()
    &&& r.game == 1
    &&& r.page == page
    &&& r.page_size == PAGE_SIZE
}

/// Builds the request for page `page` of a collection export.
pub fn export_request(page: u8) -> (r: ExportRequest)
    ensures
        is_export_request(r, page),
{
    let mut fields: Vec<String> = Vec::new();
    fields.push(String::from_str("card__oracleCard__name"));
    fields.push(String::from_str("card__edition__editioncode"));
    fields.push(String::from_str("card__collectorNumber"));
    fields.push(String::from_str("card__uid"));
    let r = ExportRequest { fields, game: 1, page, page_size: PAGE_SIZE };
    assert(r.fields@.map_values(|f: String| f@) =~= export_fields_spec());
    r
}

impl ExportRequest {
    /// Whether the export page answering this request starts with a header
    /// row: only the first page does.
    pub fn has_headers(&self) -> (b: bool)
        ensures
            b == (self.page == 1),
    {
        self.page == 1
    }
}

/// The number of pages of `page_size` rows that `total` rows fill, capped
/// at 255.
pub open spec fn page_count_spec(total: nat, page_size: nat) -> nat {
    let pages = if total % page_size == 0 {
        total / page_size
    } else {
        total / page_size + 1
    };
    if pages > 255 {
        255
    } else {
        pages
    }
}

/// Below the cap, the page count is the least number of pages that holds
/// every row.
pub proof fn lemma_page_count_fits(total: nat, page_size: nat)
    requires
        page_size > 0,
        page_count_spec(total, page_size) < 255,
    ensures
        page_count_spec(total, page_size) * page_size >= total,
        page_count_spec(total, page_size) == 0 || (page_count_spec(total, page_size) - 1)
            * page_size < total,
{
    let q = total / page_size;
    let r = total % page_size;
    assert(total == q * page_size + r && 0 <= r < page_size) by (nonlinear_arith)
        requires
            page_size > 0,
            q == total / page_size,
            r == total % page_size,
    ;
    if r == 0 {
        assert(q * page_size >= total);
        if q > 0 {
            assert((q - 1) * page_size < total) by (nonlinear_arith)
                requires
                    total == q * page_size,
                    page_size > 0,
                    q > 0,
            ;
        }
    } else {
        assert((q + 1) * page_size >= total) by (nonlinear_arith)
            requires
                total == q * page_size + r,
                r < page_size,
        ;
        assert(q * page_size < total);
    }
}

/// The number of pages of `page_size` rows that `total` rows fill, capped
/// at 255.
pub fn page_count(total: usize, page_size: u32) -> (n: u8)
    requires
        page_size > 0,
    ensures
        n == page_count_spec(total as nat, page_size as nat),
{
    let size = page_size as usize;
    let q = total / size;
    if q >= 255 {
        return 255;
    }
    if total % size == 0 {
        q as u8
    } else {
        (q + 1) as u8
    }
}

/// The requests that follow the first page of an export of `total` rows:
/// one for each page number from 1 up to, not including, the page count;
/// none when the count is at most one.
pub fn remaining_requests(total: usize) -> (rs: Vec<ExportRequest>)
    ensures
        page_count_spec(total as nat, PAGE_SIZE as nat) <= 1 ==> rs@.len() == 0,
        page_count_spec(total as nat, PAGE_SIZE as nat) > 1 ==> rs@.len() == page_count_spec(
            total as nat,
            PAGE_SIZE as nat,
        ) - 1,
        forall|i: int| 0 <= i < rs@.len() ==> is_export_request(#[trigger] rs@[i], (i + 1) as u8),
{
    let count = page_count(total, PAGE_SIZE);
    let mut rs: Vec<ExportRequest> = Vec::new();
    if count <= 1 {
        return rs;
    }
    let mut page: u8 = 1;
    while page < count
        invariant
            1 <= page <= count,
            count == page_count_spec(total as nat, PAGE_SIZE as nat),
            rs@.len() == page - 1,
            forall|i: int| 0 <= i < rs@.len() ==> is_export_request(#[trigger] rs@[i], (i + 1) as u8),
        decreases count - page,
    {
        rs.push(export_request(page));
        page = page + 1;
    }
    rs
}

/// When an export is walked one page after another: the page to ask for
/// after page `page` (0 before the first), given whether the last answer
/// said more rows follow; `None` when the walk is over.
pub fn next_export_page(page: u8, more_content: bool) -> (next: Option<u8>)
    requires
        page == 0 || !more_content || page < 255,
    ensures
        next == (if page == 0 || more_content {
            Some((page + 1) as u8)
        } else {
            None::<u8>
        }),
{
    if page == 0 || more_content {
        Some(page + 1)
    } else {
        None
    }
}

/// The cards of one export page and the collection's row total.
pub fn page_cards(records: Vec<ArchidektCard>, total_rows: u32) -> (r: (Vec<Card>, usize))
    ensures
        r.0@ == records@.map_values(|a: ArchidektCard| card_from_export(a)),
        r.1 == total_rows,
{
    let ghost s = records@;
    let mut cards: Vec<Card> = Vec::new();
    for record in it: records.into_iter()
        invariant
            it.seq() == s,
            cards@.len() == it.index(),
            forall|j: int| 0 <= j < it.index() ==> (#[trigger] cards@[j]) == card_from_export(s[j]),
    {
        cards.push(Card::from(record));
    }
    assert(cards@ =~= s.map_values(|a: ArchidektCard| card_from_export(a)));
    (cards, total_rows as usize)
}

/// All the cards of an export: those of the first page, then those of the
/// other pages in the order given.
pub fn concat_pages(first: Vec<Card>, rest: Vec<Vec<Card>>) -> (all: Vec<Card>)
    ensures
        all@ == first@ + rest@.map_values(|p: Vec<Card>| p@).flatten(),
{
    let ghost pages = rest@.map_values(|p: Vec<Card>| p@);
    let mut all = first;
    let ghost f = all@;
    for page in it: rest.into_iter()
        invariant
            it.seq() == rest@,
            pages == rest@.map_values(|p: Vec<Card>| p@),
            all@ == f + pages.take(it.index() as int).flatten(),
    {
        let mut page = page;
        proof {
            let k = it.index() as int;
            assert(pages.take(k + 1) =~= pages.take(k).push(page@));
            pages.take(k).lemma_flatten_push(page@);
        }
        all.append(&mut page);
    }
    assert(pages.take(pages.len() as int) =~= pages);
    all
}

} // verus!
