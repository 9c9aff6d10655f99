//! Pages, forms and sessions of the back office (first generation of the
//! handlers; `web_api::web_api` holds the second).
use vstd::prelude::*;

use crate::html::{
    element_inner_html, element_or_first_inner_html, element_or_first_text, select_inner_html,
    select_inner_text, select_outer_html, tl_element_inner_text, tl_select_inner_text,
};
use crate::assoc::{
    keys_distinct, lemma_map_of_dom, lemma_map_of_index, lemma_push_new, lemma_remove_at,
    lemma_set_at, map_of,
};
use crate::text::{contains_str, has_infix, parse_i32, parsed_i32};

pub mod web_api;

pub use self::web_api::{convert_to_id_and_fullname, FullName};

verus! {

broadcast use vstd::string::group_string_axioms;

// ---------------------------------------------------------------------------
// Request and response data
// ---------------------------------------------------------------------------

/// Credentials posted to log in.
pub struct AccessData {
    pub login: String,
    pub password: String,
}

/// A login given in the query string.
pub struct Name {
    pub login: String,
}

/// A login and the page of search results it asks for.
pub struct CurrentSearchPage {
    pub login: String,
    pub page_number: String,
}

/// One organisation of the organisation selector.
pub struct Organizaton {
    pub id: i32,
    pub short_name: String,
    pub full_name: String,
    pub address: String,
}

/// A client search: free text (an ID or a name), school and whether
/// deleted clients are shown.
pub struct SearchQuery {
    pub search: String,
    pub school_id: i32,
    pub deleted: bool,
}

/// One row of the client list.
pub struct OrgClient {
    pub id: String,
    pub name: String,
    pub group: String,
    pub org: String,
    pub balance: String,
}

/// One page of the client list and whether a further page exists.
pub struct OrgClientsWithNextPage {
    pub org_clients: Vec<OrgClient>,
    pub next_page_exist: bool,
}

// ---------------------------------------------------------------------------
// Where things stand on the back office's pages
// ---------------------------------------------------------------------------

/// Id of the body of the organisation table.
pub const ORG_TABLE_ID: &'static str = "orgSelectSubView:modalOrgSelectorForm:modalOrgSelectorOrgTable:tb";

/// Id of the page buttons under the organisation table.
pub const ORG_BUTTONS_ID: &'static str =
    "orgSelectSubView:modalOrgSelectorForm:modalOrgSelectorOrgTable:j_id_jsp_685543358_39pc22_table";

/// Id of the client list table.
pub const CLIENT_TABLE_ID: &'static str = "workspaceSubView:workspaceForm:workspacePageSubView:clientListTable";

/// Id of the page buttons under the client list.
pub const CLIENT_BUTTONS_ID: &'static str =
    "workspaceSubView:workspaceForm:workspacePageSubView:clientListTable:j_id_jsp_635818149_104pc51_table";

/// Selector of the highlighted page number among the page buttons.
pub const ACTIVE_PAGE_SELECTOR: &'static str = ".dr-dscr-act.rich-datascr-act";

/// Selector of the images among the page buttons.
pub const IMAGE_SELECTOR: &'static str = "img[src]";

/// The image of the button that leads to the next page.
pub const NEXT_ARROW: &'static str = "right-arrow.png";

/// Selector of table rows.
pub const ROW_SELECTOR: &'static str = "tr";

/// Selector of table cells.
pub const CELL_SELECTOR: &'static str = "td";

// ---------------------------------------------------------------------------
// Rows and cells
// ---------------------------------------------------------------------------

/// The cell texts of one table row.
pub open spec fn cells_of(row: Seq<char>) -> Option<Seq<Seq<char>>> {
    tl_select_inner_text(row, CELL_SELECTOR@)
}

/// Each row from index `from` on has its cells read, with at least `min` of them.
pub open spec fn rows_have_cells(rows: Seq<Seq<char>>, from: int, min: int) -> bool {
    forall|i: int|
        from <= i < rows.len() ==> (#[trigger] cells_of(rows[i])) is Some && cells_of(
            rows[i],
        ).unwrap().len() >= min
}

/// The cells of the rows from index `from` on.
pub open spec fn rows_cells(rows: Seq<Seq<char>>, from: int) -> Seq<Seq<Seq<char>>> {
    let n = if from <= rows.len() {
        rows.len() - from
    } else {
        0
    };
    Seq::new(n as nat, |i: int| cells_of(rows[from + i]).unwrap())
}

/// The cells of the rows of `rows` from index `from` on; `None` where a row's
/// cells cannot be read or fall short of `min`.
pub fn cells_of_rows(rows: &Vec<String>, from: usize, min: usize) -> (r: Option<Vec<Vec<String>>>)
    ensures
        r is Some <==> rows_have_cells(rows.deep_view(), from as int, min as int),
        r matches Some(c) ==> c.deep_view() == rows_cells(rows.deep_view(), from as int),
{
    let ghost rs = rows.deep_view();
    let mut out: Vec<Vec<String>> = Vec::new();
    let n = rows.len();
    let mut i = from;
    if from > n {
        assert(out.deep_view() =~= rows_cells(rs, from as int));
        return Some(out);
    }
    while i < n
        invariant
            from <= i <= n,
            n == rows.len(),
            rs == rows.deep_view(),
            out.len() == i - from,
            forall|k: int|
                from <= k < i ==> (#[trigger] cells_of(rs[k])) is Some && cells_of(
                    rs[k],
                ).unwrap().len() >= min,
            forall|k: int|
                0 <= k < out.len() ==> (#[trigger] out.deep_view()[k]) == cells_of(
                    rs[from + k],
                ).unwrap(),
        decreases n - i,
    {
        assert(rs[i as int] == rows[i as int]@);
        let cells = select_inner_text(rows[i].as_str(), CELL_SELECTOR);
        match cells {
            Some(c) => {
                assert(cells_of(rs[i as int]) == Some(c.deep_view()));
                if c.len() < min {
                    assert(!rows_have_cells(rs, from as int, min as int));
                    return None;
                }
                let ghost before = out.deep_view();
                out.push(c);
                assert forall|k: int|
                    0 <= k < out.len() implies (#[trigger] out.deep_view()[k]) == cells_of(
                    rs[from + k],
                ).unwrap() by {
                    if k < before.len() {
                        assert(out.deep_view()[k] == before[k]);
                    }
                }
            },
            None => {
                assert(cells_of(rs[i as int]) is None);
                assert(!rows_have_cells(rs, from as int, min as int));
                return None;
            },
        }
        i = i + 1;
    }
    assert(out.deep_view() =~= rows_cells(rs, from as int));
    Some(out)
}

// ---------------------------------------------------------------------------
// Page buttons
// ---------------------------------------------------------------------------

/// The HTML of the page-button table of an organisation page (of the page's
/// first node where it has no buttons), as `tl` renders it; `None` where the
/// page has no node at all.
pub fn button_table_dom(org_html: &String) -> (r: Option<String>)
    ensures
        r is Some <==> element_or_first_text(org_html@, ORG_BUTTONS_ID@) is Some,
{
    element_or_first_inner_html(org_html.as_str(), ORG_BUTTONS_ID)
}

/// Whether one of the given image tags is the arrow to the next page.
pub open spec fn shows_next_arrow(images: Seq<Seq<char>>) -> bool {
    exists|i: int| 0 <= i < images.len() && has_infix(#[trigger] images[i], NEXT_ARROW@)
}

/// Whether one of the image tags shows the arrow to the next page.
pub fn any_next_arrow(images: &Vec<String>) -> (r: bool)
    ensures
        r == shows_next_arrow(images.deep_view()),
{
    let n = images.len();
    let mut i: usize = 0;
    while i < n
        invariant
            n == images.len(),
            i <= n,
            forall|k: int| 0 <= k < i ==> !has_infix(#[trigger] images.deep_view()[k], NEXT_ARROW@),
        decreases n - i,
    {
        assert(images.deep_view()[i as int] == images[i as int]@);
        if contains_str(images[i].as_str(), NEXT_ARROW) {
            return true;
        }
        i = i + 1;
    }
    false
}

/// What the arrow check can answer on the rendered page buttons `buttons`
/// whose `img[src]` tags, as `tl` renders them, are `images`: no such image
/// gives `false`, else whether one of them names the arrow.
pub open spec fn next_arrow_reading(buttons: Seq<char>, images: Seq<Seq<char>>, b: bool) -> bool {
    match tl_select_inner_text(buttons, IMAGE_SELECTOR@) {
        None => !b,
        Some(t) => images.len() == t.len() && b == shows_next_arrow(images),
    }
}

/// Where the arrow stands among the images does not matter: images before
/// or after it leave the answer as it is, and a list shows the arrow
/// exactly where one of its parts does.
pub proof fn lemma_arrow_anywhere(front: Seq<Seq<char>>, back: Seq<Seq<char>>)
    ensures
        shows_next_arrow(front + back) == (shows_next_arrow(front) || shows_next_arrow(back)),
{
    let all = front + back;
    if shows_next_arrow(front) {
        let i = choose|i: int| 0 <= i < front.len() && has_infix(#[trigger] front[i], NEXT_ARROW@);
        assert(all[i] == front[i]);
    }
    if shows_next_arrow(back) {
        let i = choose|i: int| 0 <= i < back.len() && has_infix(#[trigger] back[i], NEXT_ARROW@);
        assert(all[front.len() + i] == back[i]);
    }
    if shows_next_arrow(all) {
        let i = choose|i: int| 0 <= i < all.len() && has_infix(#[trigger] all[i], NEXT_ARROW@);
        if i < front.len() {
            assert(front[i] == all[i]);
        } else {
            assert(back[i - front.len()] == all[i]);
        }
    }
}

/// The arrow check can answer `b` on some rendering of the page buttons.
pub open spec fn arrow_answer(b: bool) -> bool {
    exists|buttons: Seq<char>, images: Seq<Seq<char>>|
        #[trigger] next_arrow_reading(buttons, images, b)
}

/// What reading the next-page arrow of `html` gives: `None` exactly where
/// the page has neither its page buttons nor any node; otherwise the
/// answer on some rendering of the buttons.
pub open spec fn arrow_read(html: Seq<char>, r: Option<bool>) -> bool {
    match r {
        None => element_or_first_text(html, ORG_BUTTONS_ID@) is None,
        Some(b) => element_or_first_text(html, ORG_BUTTONS_ID@) is Some && arrow_answer(b),
    }
}

/// Whether the page buttons of `html` show the arrow to a next page: some
/// image among them, as `tl` renders it, names `right-arrow.png`. `None`
/// where the page has no node at all. The image tags come from `tl`'s
/// rendering, whose attribute order varies, so which tags they are is not
/// stated; `any_next_arrow` states exactly how they are read.
pub fn check_next_page(html: &String) -> (r: Option<bool>)
    ensures
        arrow_read(html@, r),
{
    let button_table = match button_table_dom(html) {
        Some(t) => t,
        None => {
            return None;
        },
    };
    match select_outer_html(button_table.as_str(), IMAGE_SELECTOR) {
        Some(images) => {
            let b = any_next_arrow(&images);
            assert(images.deep_view().len() == images.len());
            assert(next_arrow_reading(button_table@, images.deep_view(), b));
            assert(arrow_answer(b));
            Some(b)
        },
        None => {
            assert(next_arrow_reading(button_table@, Seq::empty(), false));
            assert(arrow_answer(false));
            Some(false)
        },
    }
}

/// Whether a page-button table shows the first page: `Some` of whether the
/// first highlighted page number reads `1`, `None` where it has none.
pub open spec fn first_page_shown(button_table: Seq<char>) -> Option<bool> {
    match tl_select_inner_text(button_table, ACTIVE_PAGE_SELECTOR@) {
        Some(texts) => if texts.len() > 0 {
            Some(texts[0] == seq!['1'])
        } else {
            None
        },
        None => None,
    }
}

/// Whether the page-button table `button_table` shows the first page.
pub fn first_page_in_buttons(button_table: &String) -> (r: Option<bool>)
    ensures
        r == first_page_shown(button_table@),
{
    match select_inner_text(button_table.as_str(), ACTIVE_PAGE_SELECTOR) {
        Some(texts) => {
            if texts.len() > 0 {
                assert(texts.deep_view()[0] == texts[0]@);
                let one = "1".to_owned();
                proof {
                    reveal_strlit("1");
                    assert(one@ =~= seq!['1']);
                }
                let first = texts[0] == one;
                Some(first)
            } else {
                None
            }
        },
        None => None,
    }
}

/// Whether the organisation page shown is the first one: its highlighted
/// page number reads `1`. `None` where the page has no highlighted number.
/// `None` where the page has neither its page buttons nor any node;
/// otherwise the reading of the highlighted number on some rendering of the
/// buttons.
pub fn check_first_org(org_html: &String) -> (r: Option<bool>)
    ensures
        element_or_first_text(org_html@, ORG_BUTTONS_ID@) is None ==> r is None,
        element_or_first_text(org_html@, ORG_BUTTONS_ID@) is Some ==> exists|t: Seq<char>|
            #[trigger] first_page_shown(t) == r,
{
    match button_table_dom(org_html) {
        Some(button_table) => {
            let r = first_page_in_buttons(&button_table);
            assert(first_page_shown(button_table@) == r);
            r
        },
        None => None,
    }
}

/// Which organisation page to ask for before gathering, given the popup
/// the organisation selector opened with: none (`Some(None)`) where the
/// popup shows page 1, else page 1 (`Some(Some(1))`); `None` where the
/// popup's highlighted page number cannot be read.
pub fn first_org_page_request(popup_html: &String) -> (r: Option<Option<i32>>)
    ensures
        element_or_first_text(popup_html@, ORG_BUTTONS_ID@) is None ==> r is None,
        element_or_first_text(popup_html@, ORG_BUTTONS_ID@) is Some ==> exists|t: Seq<char>|
            #[trigger] first_page_shown(t) == match r {
                Some(p) => Some(p is None),
                None => None,
            },
        r matches Some(Some(p)) ==> p == 1,
{
    let shown = check_first_org(popup_html);
    let r = match shown {
        Some(true) => Some(None),
        Some(false) => Some(Some(1i32)),
        None => None,
    };
    assert(shown == match r {
        Some(p) => Some(p is None),
        None => None,
    });
    r
}

// ---------------------------------------------------------------------------
// Organisation pages
// ---------------------------------------------------------------------------

/// The organisation read from a row's cells: ID from the first cell, short
/// and full name both from the second, address from the third.
pub open spec fn org_matches(o: Organizaton, cells: Seq<Seq<char>>) -> bool {
    &&& o.id == parsed_i32(cells[0]).unwrap()
    &&& o.short_name@ == cells[1]
    &&& o.full_name@ == cells[1]
    &&& o.address@ == cells[2]
}

/// A row from which an organisation can be read.
pub open spec fn org_row_ok(cells: Seq<Seq<char>>) -> bool {
    cells.len() >= 3 && parsed_i32(cells[0]) is Some
}

/// The organisation of one table row.
pub fn organization_from_cells(cells: &Vec<String>) -> (r: Organizaton)
    requires
        org_row_ok(cells.deep_view()),
    ensures
        org_matches(r, cells.deep_view()),
{
    let ghost c = cells.deep_view();
    assert(c[0] == cells[0]@ && c[1] == cells[1]@ && c[2] == cells[2]@);
    Organizaton {
        id: parse_i32(cells[0].as_str()).unwrap(),
        short_name: cells[1].clone(),
        full_name: cells[1].clone(),
        address: cells[2].clone(),
    }
}

/// The organisations of the given rows, one per row, in order.
pub fn orgs_from_rows(rows: &Vec<Vec<String>>) -> (r: Vec<Organizaton>)
    requires
        forall|i: int| 0 <= i < rows.len() ==> org_row_ok(#[trigger] rows.deep_view()[i]),
    ensures
        r.len() == rows.len(),
        forall|i: int| 0 <= i < r.len() ==> org_matches(#[trigger] r[i], rows.deep_view()[i]),
{
    let mut out: Vec<Organizaton> = Vec::new();
    let n = rows.len();
    let mut i: usize = 0;
    while i < n
        invariant
            n == rows.len(),
            i <= n,
            out.len() == i,
            forall|k: int| 0 <= k < rows.len() ==> org_row_ok(#[trigger] rows.deep_view()[k]),
            forall|k: int| 0 <= k < i ==> org_matches(#[trigger] out[k], rows.deep_view()[k]),
        decreases n - i,
    {
        assert(rows.deep_view()[i as int] == rows[i as int].deep_view());
        let o = organization_from_cells(&rows[i]);
        out.push(o);
        i = i + 1;
    }
    out
}

/// Every row holds an organisation: three cells at least, the first a number.
pub open spec fn org_rows_ok(rows: Seq<Seq<char>>) -> bool {
    &&& rows_have_cells(rows, 0, 3)
    &&& forall|i: int| 0 <= i < rows.len() ==> parsed_i32((#[trigger] rows_cells(rows, 0)[i])[0]) is Some
}

/// `orgs` are the organisations of the rows, one per row, in order.
pub open spec fn orgs_of_rows(orgs: Seq<Organizaton>, rows: Seq<Seq<char>>) -> bool {
    &&& orgs.len() == rows.len()
    &&& forall|i: int| 0 <= i < orgs.len() ==> org_matches(#[trigger] orgs[i], rows_cells(rows, 0)[i])
}

/// The organisations of the given table rows (their HTML); `None` where a
/// row has fewer than three cells or an ID that is not a number.
pub fn orgs_from_row_html(rows: &Vec<String>) -> (r: Option<Vec<Organizaton>>)
    ensures
        r is Some <==> org_rows_ok(rows.deep_view()),
        r matches Some(v) ==> orgs_of_rows(v@, rows.deep_view()),
{
    let cells = match cells_of_rows(rows, 0, 3) {
        Some(c) => c,
        None => {
            return None;
        },
    };
    let ghost all = rows_cells(rows.deep_view(), 0);
    let n = cells.len();
    assert(cells.deep_view().len() == n);
    let mut i: usize = 0;
    while i < n
        invariant
            n == cells.len(),
            cells.deep_view() == all,
            all == rows_cells(rows.deep_view(), 0),
            rows_have_cells(rows.deep_view(), 0, 3),
            all.len() == rows.deep_view().len(),
            i <= n,
            forall|k: int| 0 <= k < i ==> parsed_i32((#[trigger] all[k])[0]) is Some,
        decreases n - i,
    {
        assert(all[i as int] == cells[i as int].deep_view());
        assert(all[i as int] == cells_of(rows.deep_view()[i as int]).unwrap());
        assert(cells_of(rows.deep_view()[i as int]) is Some);
        assert(cells[i as int].deep_view()[0] == cells[i as int][0]@);
        if parse_i32(cells[i][0].as_str()).is_none() {
            assert(parsed_i32(all[i as int][0]) is None);
            return None;
        }
        i = i + 1;
    }
    assert forall|k: int| 0 <= k < cells.len() implies org_row_ok(
        #[trigger] cells.deep_view()[k],
    ) by {
        assert(all[k] == cells_of(rows.deep_view()[k]).unwrap());
        assert(cells_of(rows.deep_view()[k]) is Some);
    }
    Some(orgs_from_rows(&cells))
}

/// `rows` are the `tr` rows that `tl` finds in `table`, one for each.
pub open spec fn rows_fit(table: Seq<char>, rows: Seq<Seq<char>>) -> bool {
    &&& tl_select_inner_text(table, ROW_SELECTOR@) is Some
    &&& rows.len() == tl_select_inner_text(table, ROW_SELECTOR@).unwrap().len()
}

/// What reading the organisations off a rendered table `table` whose rows,
/// as `tl` renders them, are `rows` gives: the organisation of each row,
/// in order, where every row holds one; `None` otherwise.
pub open spec fn org_rows_reading(table: Seq<char>, rows: Seq<Seq<char>>, r: Option<Seq<Organizaton>>) -> bool {
    if rows_fit(table, rows) && org_rows_ok(rows) {
        r is Some && orgs_of_rows(r.unwrap(), rows)
    } else {
        r is None
    }
}

/// What reading the organisations of the page `html` gives: `None` where
/// the page has neither the organisation table nor any node; otherwise the
/// reading of some rendering of that table.
pub open spec fn org_page_read(html: Seq<char>, r: Option<Seq<Organizaton>>) -> bool {
    if element_or_first_text(html, ORG_TABLE_ID@) is None {
        r is None
    } else {
        exists|table: Seq<char>, rows: Seq<Seq<char>>| #[trigger] org_rows_reading(table, rows, r)
    }
}

/// The organisations of an optional list, as a sequence.
pub open spec fn orgs_view(r: Option<Vec<Organizaton>>) -> Option<Seq<Organizaton>> {
    match r {
        Some(v) => Some(v@),
        None => None,
    }
}

/// The organisations listed on an organisation page, one per row of its
/// table, as `tl` renders the rows. `None` where the page has no table, a
/// row has fewer than three cells, or an ID is not a number. Which rows the
/// rendering gives is not stated: it varies in attribute order.
pub fn parse_org_page(org_html: &String) -> (r: Option<Vec<Organizaton>>)
    ensures
        org_page_read(org_html@, orgs_view(r)),
{
    let table = match element_or_first_inner_html(org_html.as_str(), ORG_TABLE_ID) {
        Some(t) => t,
        None => {
            return None;
        },
    };
    let rows = match select_inner_html(table.as_str(), ROW_SELECTOR) {
        Some(r) => r,
        None => {
            assert(org_rows_reading(table@, Seq::empty(), None));
            return None;
        },
    };
    let r = orgs_from_row_html(&rows);
    assert(org_rows_reading(table@, rows.deep_view(), orgs_view(r)));
    r
}

// ---------------------------------------------------------------------------
// Client pages
// ---------------------------------------------------------------------------

/// Rows that precede the client rows: two header rows, and the row of the
/// page buttons where the page has them.
pub open spec fn client_skip(html: Seq<char>) -> int {
    if tl_element_inner_text(html, CLIENT_BUTTONS_ID@) is Some {
        3
    } else {
        2
    }
}

/// What reading the client rows of the page `html` gives where `tl`
/// renders its table as `table`, the table's rows as `rows` and its page
/// buttons as `buttons`, and the arrow check of those buttons answers
/// `arrow` (no buttons: no further page): the cells of the rows after
/// `client_skip(html)`, with the arrow's answer, where the answer is known
/// and each client row has eight cells; `None` otherwise.
pub open spec fn client_rows_reading(
    html: Seq<char>,
    table: Seq<char>,
    buttons: Seq<char>,
    rows: Seq<Seq<char>>,
    arrow: Option<bool>,
    r: Option<(Seq<Seq<Seq<char>>>, bool)>,
) -> bool {
    &&& tl_element_inner_text(html, CLIENT_BUTTONS_ID@) is None ==> arrow == Some(false)
    &&& tl_element_inner_text(html, CLIENT_BUTTONS_ID@) is Some ==> arrow_read(buttons, arrow)
    &&& if rows_fit(table, rows) && arrow is Some && rows_have_cells(rows, client_skip(html), 8) {
        r == Some((rows_cells(rows, client_skip(html)), arrow.unwrap()))
    } else {
        r is None
    }
}

/// What reading the client rows of the page `html` gives: `None` where the
/// page has neither the client table nor any node; otherwise the reading
/// of some rendering of the table and the buttons.
pub open spec fn client_rows_read(html: Seq<char>, r: Option<(Seq<Seq<Seq<char>>>, bool)>) -> bool {
    if element_or_first_text(html, CLIENT_TABLE_ID@) is None {
        r is None
    } else {
        exists|table: Seq<char>, buttons: Seq<char>, rows: Seq<Seq<char>>, arrow: Option<bool>|
            #[trigger] client_rows_reading(html, table, buttons, rows, arrow, r)
    }
}

/// A client page without page buttons has no further page, and its client
/// rows start after the two header rows; one that reports a further page
/// has page buttons, on which the arrow check answered that it is shown.
pub proof fn lemma_next_page_needs_buttons(html: Seq<char>, p: (Seq<Seq<Seq<char>>>, bool))
    requires
        client_rows_read(html, Some(p)),
    ensures
        tl_element_inner_text(html, CLIENT_BUTTONS_ID@) is None ==> !p.1 && client_skip(html) == 2,
        p.1 ==> tl_element_inner_text(html, CLIENT_BUTTONS_ID@) is Some && client_skip(html) == 3
            && arrow_answer(true),
{
    let (table, buttons, rows, arrow) = choose|
        table: Seq<char>,
        buttons: Seq<char>,
        rows: Seq<Seq<char>>,
        arrow: Option<bool>,
    | #[trigger] client_rows_reading(html, table, buttons, rows, arrow, Some(p));
}

/// The cells of the client rows of a client page, and whether a further page
/// exists. `None` where the page has no table, its buttons have no node, or a
/// client row has fewer than eight cells. Which rows the rendering of the
/// table gives is not stated: it varies in attribute order.
pub fn client_page_rows(client_html: &String) -> (r: Option<(Vec<Vec<String>>, bool)>)
    ensures
        client_rows_read(client_html@, r.deep_view()),
{
    let table = match element_or_first_inner_html(client_html.as_str(), CLIENT_TABLE_ID) {
        Some(t) => t,
        None => {
            return None;
        },
    };
    let mut next_page_exist = false;
    let mut skip_rows: usize = 2;
    let ghost mut buttons: Seq<char> = Seq::empty();
    match element_inner_html(client_html.as_str(), CLIENT_BUTTONS_ID) {
        Some(b) => {
            proof {
                buttons = b@;
            }
            skip_rows = 3;
            match check_next_page(&b) {
                Some(m) => {
                    next_page_exist = m;
                },
                None => {
                    assert(client_rows_reading(client_html@, table@, buttons, Seq::empty(), None, None));
                    return None;
                },
            }
        },
        None => {},
    }
    assert(skip_rows == client_skip(client_html@));
    let ghost arrow = Some(next_page_exist);
    let rows = match select_inner_html(table.as_str(), ROW_SELECTOR) {
        Some(r) => r,
        None => {
            assert(client_rows_reading(client_html@, table@, buttons, Seq::empty(), arrow, None));
            return None;
        },
    };
    match cells_of_rows(&rows, skip_rows, 8) {
        Some(cells) => {
            let r = Some((cells, next_page_exist));
            assert(client_rows_reading(client_html@, table@, buttons, rows.deep_view(), arrow, r.deep_view()));
            r
        },
        None => {
            assert(client_rows_reading(client_html@, table@, buttons, rows.deep_view(), arrow, None));
            None
        },
    }
}

/// The client of one row: cells 1, 3, 4, 6 and 7 give ID, name, group,
/// organisation and balance.
pub open spec fn client_matches(c: OrgClient, cells: Seq<Seq<char>>) -> bool {
    &&& c.id@ == cells[1]
    &&& c.name@ == cells[3]
    &&& c.group@ == cells[4]
    &&& c.org@ == cells[6]
    &&& c.balance@ == cells[7]
}

/// The client of one row of the client list.
pub fn client_from_cells(cells: &Vec<String>) -> (r: OrgClient)
    requires
        cells.len() >= 8,
    ensures
        client_matches(r, cells.deep_view()),
{
    OrgClient {
        id: cells[1].clone(),
        name: cells[3].clone(),
        group: cells[4].clone(),
        org: cells[6].clone(),
        balance: cells[7].clone(),
    }
}

/// Each client is the one of its row.
pub open spec fn clients_of_cells(clients: Seq<OrgClient>, cells: Seq<Seq<Seq<char>>>) -> bool {
    &&& clients.len() == cells.len()
    &&& forall|i: int| 0 <= i < clients.len() ==> client_matches(#[trigger] clients[i], cells[i])
}

/// `r` are the clients of the read client rows `cells`, one per row, in
/// order, with the same answer on a further page; `None` where `cells` is.
pub open spec fn clients_of_page(cells: Option<(Seq<Seq<Seq<char>>>, bool)>, r: Option<(Seq<OrgClient>, bool)>) -> bool {
    match cells {
        None => r is None,
        Some(p) => r is Some && r.unwrap().1 == p.1 && clients_of_cells(r.unwrap().0, p.0),
    }
}

/// What reading the clients of the page `html` gives: the clients of what
/// reading its client rows gives.
pub open spec fn clients_read(html: Seq<char>, r: Option<(Seq<OrgClient>, bool)>) -> bool {
    exists|cells: Option<(Seq<Seq<Seq<char>>>, bool)>|
        #[trigger] client_rows_read(html, cells) && clients_of_page(cells, r)
}

/// The clients a collector added and its answer, as a page read.
pub open spec fn added_page(added: Seq<OrgClient>, more: Option<bool>) -> Option<(Seq<OrgClient>, bool)> {
    match more {
        Some(m) => Some((added, m)),
        None => None,
    }
}

/// A page of clients as sequences.
pub open spec fn page_view(r: Option<(Vec<OrgClient>, bool)>) -> Option<(Seq<OrgClient>, bool)> {
    match r {
        Some(p) => Some((p.0@, p.1)),
        None => None,
    }
}

/// The clients of the given rows, one per row, in order.
pub fn clients_from_rows(cells: &Vec<Vec<String>>) -> (r: Vec<OrgClient>)
    requires
        forall|i: int| 0 <= i < cells.len() ==> (#[trigger] cells.deep_view()[i]).len() >= 8,
    ensures
        clients_of_cells(r@, cells.deep_view()),
{
    let mut out: Vec<OrgClient> = Vec::new();
    let n = cells.len();
    let mut i: usize = 0;
    while i < n
        invariant
            n == cells.len(),
            i <= n,
            out.len() == i,
            forall|k: int| 0 <= k < n ==> (#[trigger] cells.deep_view()[k]).len() >= 8,
            forall|k: int| 0 <= k < i ==> client_matches(#[trigger] out[k], cells.deep_view()[k]),
        decreases n - i,
    {
        assert(cells.deep_view()[i as int] == cells[i as int].deep_view());
        out.push(client_from_cells(&cells[i]));
        i = i + 1;
    }
    out
}

/// Rows with eight cells each give cells of eight each.
proof fn lemma_rows_cells_long(rows: Seq<Seq<char>>, skip: int)
    requires
        rows_have_cells(rows, skip, 8),
        skip >= 0,
    ensures
        forall|i: int| 0 <= i < rows_cells(rows, skip).len() ==> (#[trigger] rows_cells(rows, skip)[i]).len() >= 8,
{
    assert forall|i: int| 0 <= i < rows_cells(rows, skip).len() implies (#[trigger] rows_cells(rows, skip)[i]).len() >= 8 by {
        assert(cells_of(rows[skip + i]) is Some);
    }
}

/// The client rows read off a page all have eight cells.
pub proof fn lemma_client_page_rows_long(html: Seq<char>, p: (Seq<Seq<Seq<char>>>, bool))
    requires
        client_rows_read(html, Some(p)),
    ensures
        forall|i: int| 0 <= i < p.0.len() ==> (#[trigger] p.0[i]).len() >= 8,
{
    let (table, buttons, rows, arrow) = choose|
        table: Seq<char>,
        buttons: Seq<char>,
        rows: Seq<Seq<char>>,
        arrow: Option<bool>,
    | #[trigger] client_rows_reading(html, table, buttons, rows, arrow, Some(p));
    lemma_rows_cells_long(rows, client_skip(html));
}

/// The clients of a page of the client list, one per client row, and
/// whether a further page exists; `None` where `client_page_rows` is.
pub fn parse_clients_page(client_html: &String) -> (r: Option<(Vec<OrgClient>, bool)>)
    ensures
        clients_read(client_html@, page_view(r)),
{
    let rows = client_page_rows(client_html);
    let ghost cells = rows.deep_view();
    match rows {
        Some((cells, next_page_exist)) => {
            proof {
                lemma_client_page_rows_long(client_html@, (cells.deep_view(), next_page_exist));
                assert(cells.deep_view().len() == cells.len());
            }
            let clients = clients_from_rows(&cells);
            let r = Some((clients, next_page_exist));
            assert(clients_of_page(Some((cells.deep_view(), next_page_exist)), page_view(r)));
            r
        },
        None => {
            assert(clients_of_page(cells, None));
            None
        },
    }
}

// ---------------------------------------------------------------------------
// Sessions
// ---------------------------------------------------------------------------

/// Reply to a login of a user whose session is still valid.
pub const ALREADY_AUTHORIZED: &'static str = "уже авторизован";

/// Reply to a successful login.
pub const LOGIN_OK: &'static str = "login";

/// Reply to a failed login.
pub const LOGIN_FAILED: &'static str = "error";

/// Reply to a logout.
pub const LOGGED_OUT: &'static str = "logout";

/// Reply where the login has no session with a cookie.
pub const NO_SUCH_USER: &'static str = "такого пользователя нет";

/// Reply to an organisation list asked for before the login completed.
pub const NOT_YET_AUTHORIZED: &'static str = "пока не авторизован";

/// Reply where the back office no longer accepts the session.
pub const NOT_AUTHORIZED: &'static str = "Не авторизован";

/// Id of the element that shows who is logged in.
pub const SYSUSER_ID: &'static str = "headerForm:sysuser";

#[verifier::external_type_specification]
#[verifier::external_body]
pub struct ExHttpClient(reqwest::Client);

/// `reqwest::Client` is a handle on a shared `Arc` (`#[derive(Clone)]` over
/// `inner: Arc<ClientRef>`): its clone is the same client.
pub assume_specification[ <reqwest::Client as Clone>::clone ](c: &reqwest::Client) -> (r:
    reqwest::Client)
    ensures
        r == *c,
;

impl Clone for SearchQuery {
    fn clone(&self) -> (r: Self)
        ensures
            r == *self,
    {
        SearchQuery { search: self.search.clone(), school_id: self.school_id, deleted: self.deleted }
    }
}

/// A user's session with the back office: the HTTP client that holds its
/// cookies, the session cookie and password once logged in, and the last
/// client search.
pub struct WebClient {
    pub client: reqwest::Client,
    pub cookie: String,
    pub password: String,
    pub search_query: Option<SearchQuery>,
}

impl WebClient {
    /// A fresh session on `client`: no cookie, no password, no search yet.
    pub fn new(client: reqwest::Client) -> (r: WebClient)
        ensures
            r.client == client,
            r.cookie@ == Seq::<char>::empty(),
            r.password@ == Seq::<char>::empty(),
            r.search_query is None,
    {
        WebClient { client, cookie: String::new(), password: String::new(), search_query: None }
    }
}

impl Clone for WebClient {
    fn clone(&self) -> (r: Self)
        ensures
            r == *self,
    {
        let search_query = match &self.search_query {
            Some(q) => Some(q.clone()),
            None => None,
        };
        WebClient {
            client: self.client.clone(),
            cookie: self.cookie.clone(),
            password: self.password.clone(),
            search_query,
        }
    }
}

/// The session `c` with a new cookie and password.
pub open spec fn with_credentials(c: WebClient, cookie: String, password: String) -> WebClient {
    WebClient { client: c.client, cookie: cookie, password: password, search_query: c.search_query }
}

/// The sessions after `name` asked for its session with `fresh` ready: its
/// own where it had one, else `fresh`.
pub open spec fn opened(m: Map<Seq<char>, WebClient>, name: Seq<char>, fresh: WebClient) -> Map<
    Seq<char>,
    WebClient,
> {
    if m.contains_key(name) {
        m
    } else {
        m.insert(name, fresh)
    }
}

/// The sessions after `name` logged in with `cookie` and `password`.
pub open spec fn credentials_set(
    m: Map<Seq<char>, WebClient>,
    name: Seq<char>,
    cookie: String,
    password: String,
) -> Map<Seq<char>, WebClient> {
    if m.contains_key(name) {
        m.insert(name, with_credentials(m[name], cookie, password))
    } else {
        m
    }
}

/// The logins with a session and their sessions.
pub struct Sessions {
    entries: Vec<(String, WebClient)>,
}

impl View for Sessions {
    type V = Map<Seq<char>, WebClient>;

    closed spec fn view(&self) -> Map<Seq<char>, WebClient> {
        map_of(self.entries@)
    }
}

impl Sessions {
    /// No login holds two sessions.
    pub closed spec fn wf(&self) -> bool {
        keys_distinct(self.entries@)
    }

    /// No sessions.
    pub fn new() -> (r: Sessions)
        ensures
            r.wf(),
            r@ == Map::<Seq<char>, WebClient>::empty(),
    {
        Sessions { entries: Vec::new() }
    }

    fn find(&self, name: &String) -> (r: Option<usize>)
        requires
            self.wf(),
        ensures
            match r {
                Some(i) => i < self.entries.len() && self.entries@[i as int].0@ == name@,
                None => !self@.contains_key(name@),
            },
    {
        let n = self.entries.len();
        let mut i: usize = 0;
        while i < n
            invariant
                n == self.entries.len(),
                i <= n,
                forall|k: int| 0 <= k < i ==> (#[trigger] self.entries@[k]).0@ != name@,
            decreases n - i,
        {
            if self.entries[i].0 == *name {
                return Some(i);
            }
            i = i + 1;
        }
        proof {
            lemma_map_of_dom(self.entries@, name@);
        }
        None
    }

    /// Whether `name` has a session.
    pub fn contains(&self, name: &String) -> (r: bool)
        requires
            self.wf(),
        ensures
            r == self@.contains_key(name@),
    {
        match self.find(name) {
            Some(i) => {
                proof {
                    lemma_map_of_index(self.entries@, i as int);
                }
                true
            },
            None => false,
        }
    }

    /// Puts `client` under `name`, replacing any session it had.
    pub fn insert(&mut self, name: String, client: WebClient)
        requires
            old(self).wf(),
        ensures
            final(self).wf(),
            final(self)@ == old(self)@.insert(name@, client),
    {
        match self.find(&name) {
            Some(i) => {
                proof {
                    lemma_set_at(self.entries@, i as int, (name, client));
                }
                self.entries.set(i, (name, client));
            },
            None => {
                proof {
                    lemma_push_new(self.entries@, (name, client));
                }
                self.entries.push((name, client));
            },
        }
    }

    /// Drops the session of `name`, if any.
    pub fn remove(&mut self, name: &String)
        requires
            old(self).wf(),
        ensures
            final(self).wf(),
            final(self)@ == old(self)@.remove(name@),
    {
        match self.find(name) {
            Some(i) => {
                proof {
                    lemma_remove_at(self.entries@, i as int);
                }
                self.entries.remove(i);
            },
            None => {
                assert(self@.remove(name@) =~= self@);
            },
        }
    }

    /// The session of `name`, opened with `fresh` where `name` has none
    /// yet; the session stays stored and a copy of it is returned.
    pub fn create_client_or_send_exist(&mut self, name: &String, fresh: WebClient) -> (r: WebClient)
        requires
            old(self).wf(),
        ensures
            final(self).wf(),
            final(self)@ == opened(old(self)@, name@, fresh),
            r == final(self)@[name@],
    {
        match self.find(name) {
            Some(i) => {
                proof {
                    lemma_map_of_index(self.entries@, i as int);
                }
                self.entries[i].1.clone()
            },
            None => {
                let copy = fresh.clone();
                self.insert(name.clone(), fresh);
                copy
            },
        }
    }

    /// Gives the session of `name`, if any, a new cookie and password.
    pub fn set_credentials(&mut self, name: &String, cookie: String, password: String)
        requires
            old(self).wf(),
        ensures
            final(self).wf(),
            final(self)@ == credentials_set(old(self)@, name@, cookie, password),
    {
        match self.find(name) {
            Some(i) => {
                proof {
                    lemma_map_of_index(self.entries@, i as int);
                }
                let current = self.entries[i].1.clone();
                let updated = WebClient {
                    client: current.client,
                    cookie,
                    password,
                    search_query: current.search_query,
                };
                self.insert(name.clone(), updated);
            },
            None => {},
        }
    }
}


// ---------------------------------------------------------------------------
// Login, logout and access
// ---------------------------------------------------------------------------

/// Whether the back office has to be asked if a session is still valid:
/// only a session with a cookie can be.
pub fn needs_auth_check(web_client: &WebClient) -> (r: bool)
    ensures
        r == (web_client.cookie@.len() > 0),
{
    !web_client.cookie.as_str().is_empty()
}

/// Whether the back office still accepts a session: the cookie it sets in
/// answer to a request of that session is the session's own.
pub fn check_auth(response_cookie: &String, web_client: &WebClient) -> (r: bool)
    ensures
        r == (response_cookie@ == web_client.cookie@),
{
    *response_cookie == web_client.cookie
}

/// Who the page says is logged in.
pub open spec fn page_user(html: Seq<char>) -> Option<Seq<char>> {
    crate::html::element_or_first_text(html, SYSUSER_ID@)
}

/// Whether the page after a login shows `login` as the logged-in user.
pub fn logged_in_as(page: &String, login: &String) -> (r: bool)
    requires
        page_user(page@) is Some,
    ensures
        r == (page_user(page@).unwrap() == login@),
        tl_element_inner_text(page@, SYSUSER_ID@) is Some ==> r == (tl_element_inner_text(
            page@,
            SYSUSER_ID@,
        ).unwrap() == login@),
        tl_element_inner_text(page@, SYSUSER_ID@) is None ==> r == (
        crate::html::tl_first_node_inner_text(page@).unwrap() == login@),
{
    let user = crate::html::element_or_first_inner_text(page.as_str(), SYSUSER_ID).unwrap();
    user == *login
}

/// The user a page shows is the text of its `headerForm:sysuser` element,
/// or, where the page has none, of its first node; a page with neither
/// shows nobody.
pub proof fn lemma_page_user(html: Seq<char>)
    ensures
        tl_element_inner_text(html, SYSUSER_ID@) is Some ==> page_user(html)
            == tl_element_inner_text(html, SYSUSER_ID@),
        tl_element_inner_text(html, SYSUSER_ID@) is None ==> page_user(html)
            == crate::html::tl_first_node_inner_text(html),
{
}

/// `logged_in_as` where the page has a node to read: `Some` exactly where
/// the page has the `headerForm:sysuser` element or a first node, and then
/// whether that element's text, or else the first node's, is `login`.
pub fn try_logged_in_as(page: &String, login: &String) -> (r: Option<bool>)
    ensures
        r is Some <==> page_user(page@) is Some,
        r matches Some(b) ==> b == (page_user(page@).unwrap() == login@),
        tl_element_inner_text(page@, SYSUSER_ID@) is Some ==> r == Some(
            tl_element_inner_text(page@, SYSUSER_ID@).unwrap() == login@,
        ),
        tl_element_inner_text(page@, SYSUSER_ID@) is None ==> r == match crate::html::tl_first_node_inner_text(page@) {
            Some(u) => Some(u == login@),
            None => None,
        },
{
    match crate::html::element_or_first_inner_text(page.as_str(), SYSUSER_ID) {
        Some(_) => Some(logged_in_as(page, login)),
        None => None,
    }
}

impl Sessions {
    /// Ends a login attempt: where the back office showed `login` as logged
    /// in, its session keeps the new cookie and password and the reply is
    /// `login`; otherwise the session is dropped and the reply is `error`.
    pub fn finish_login(&mut self, login: &String, password: String, cookie: String, logged_in: bool) -> (r: String)
        requires
            old(self).wf(),
        ensures
            final(self).wf(),
            logged_in ==> final(self)@ == credentials_set(old(self)@, login@, cookie, password)
                && r@ == LOGIN_OK@,
            !logged_in ==> final(self)@ == old(self)@.remove(login@) && r@ == LOGIN_FAILED@,
    {
        if logged_in {
            self.set_credentials(login, cookie, password);
            LOGIN_OK.to_owned()
        } else {
            self.remove(login);
            LOGIN_FAILED.to_owned()
        }
    }

    /// Keeps `query` as the last search of `login`'s session `web_client`.
    pub fn remember_search(&mut self, login: &String, web_client: WebClient, query: SearchQuery)
        requires
            old(self).wf(),
        ensures
            final(self).wf(),
            final(self)@ == old(self)@.insert(
                login@,
                WebClient {
                    client: web_client.client,
                    cookie: web_client.cookie,
                    password: web_client.password,
                    search_query: Some(query),
                },
            ),
    {
        let mut updated = web_client;
        updated.search_query = Some(query);
        self.insert(login.clone(), updated);
    }

    /// Ends a session; the reply is `logout`.
    pub fn logout(&mut self, login: &String) -> (r: String)
        requires
            old(self).wf(),
        ensures
            final(self).wf(),
            final(self)@ == old(self)@.remove(login@),
            r@ == LOGGED_OUT@,
    {
        self.remove(login);
        LOGGED_OUT.to_owned()
    }

    /// The decision that opens the organisation list: a session without a
    /// cookie belongs to nobody logged in, so it is dropped and the answer
    /// is "no such user"; a session with a cookie is first checked with the
    /// back office (`authorized` is `None` until then); one the back office
    /// refuses is answered "not yet logged in"; an accepted one goes ahead.
    pub fn organizations_gate(&mut self, login: &String, web_client: &WebClient, authorized: Option<bool>) -> (r: Gate)
        requires
            old(self).wf(),
        ensures
            final(self).wf(),
            web_client.cookie@.len() == 0 ==> final(self)@ == old(self)@.remove(login@) && (
            r matches Gate::Reply(s) && s@ == NO_SUCH_USER@),
            web_client.cookie@.len() > 0 ==> final(self)@ == old(self)@ && match authorized {
                None => r is CheckAuth,
                Some(true) => r is Proceed,
                Some(false) => r matches Gate::Reply(s) && s@ == NOT_YET_AUTHORIZED@,
            },
    {
        if web_client.cookie.as_str().is_empty() {
            self.remove(login);
            return Gate::Reply(NO_SUCH_USER.to_owned());
        }
        match authorized {
            None => Gate::CheckAuth,
            Some(true) => Gate::Proceed,
            Some(false) => Gate::Reply(NOT_YET_AUTHORIZED.to_owned()),
        }
    }
}

/// What a handler does next about the session check.
pub enum Gate {
    /// Ask the back office whether it still accepts the session.
    CheckAuth,
    /// Go on with the request.
    Proceed,
    /// Stop and answer this.
    Reply(String),
}

/// The decision that opens a login: a session with a cookie is first checked
/// with the back office (`authorized` is `None` until then); where the back
/// office accepts it the answer is "already logged in"; otherwise, and for a
/// session without a cookie, the login goes ahead.
pub fn login_gate(web_client: &WebClient, authorized: Option<bool>) -> (r: Gate)
    ensures
        web_client.cookie@.len() == 0 ==> r is Proceed,
        web_client.cookie@.len() > 0 ==> match authorized {
            None => r is CheckAuth,
            Some(true) => r matches Gate::Reply(s) && s@ == ALREADY_AUTHORIZED@,
            Some(false) => r is Proceed,
        },
{
    if !needs_auth_check(web_client) {
        return Gate::Proceed;
    }
    match authorized {
        None => Gate::CheckAuth,
        Some(true) => Gate::Reply(ALREADY_AUTHORIZED.to_owned()),
        Some(false) => Gate::Proceed,
    }
}

/// The decision that opens a client search, a page of its results or a
/// full download: a session with a cookie is first checked with the back
/// office (`authorized` is `None` until then); one the back office refuses
/// is answered "not logged in"; otherwise, and for a session without a
/// cookie, the request goes ahead.
pub fn search_gate(web_client: &WebClient, authorized: Option<bool>) -> (r: Gate)
    ensures
        web_client.cookie@.len() == 0 ==> r is Proceed,
        web_client.cookie@.len() > 0 ==> match authorized {
            None => r is CheckAuth,
            Some(true) => r is Proceed,
            Some(false) => r matches Gate::Reply(s) && s@ == NOT_AUTHORIZED@,
        },
{
    if !needs_auth_check(web_client) {
        return Gate::Proceed;
    }
    match authorized {
        None => Gate::CheckAuth,
        Some(true) => Gate::Proceed,
        Some(false) => Gate::Reply(NOT_AUTHORIZED.to_owned()),
    }
}

/// Asking twice for a session gives the same session, and the second ask
/// changes nothing.
pub proof fn lemma_open_twice(m: Map<Seq<char>, WebClient>, name: Seq<char>, a: WebClient, b: WebClient)
    ensures
        opened(opened(m, name, a), name, b) == opened(m, name, a),
        opened(opened(m, name, a), name, b)[name] == opened(m, name, a)[name],
{
}

/// A session that exists is the one handed out, whatever fresh client was
/// ready.
pub proof fn lemma_open_existing(m: Map<Seq<char>, WebClient>, name: Seq<char>, fresh: WebClient)
    requires
        m.contains_key(name),
    ensures
        opened(m, name, fresh)[name] == m[name],
{
}

/// After a successful login the session handed out carries the new cookie
/// and password and keeps its client and search.
pub proof fn lemma_login_then_open(
    m: Map<Seq<char>, WebClient>,
    name: Seq<char>,
    cookie: String,
    password: String,
    fresh: WebClient,
)
    requires
        m.contains_key(name),
    ensures
        opened(credentials_set(m, name, cookie, password), name, fresh)[name].cookie == cookie,
        opened(credentials_set(m, name, cookie, password), name, fresh)[name].password == password,
        opened(credentials_set(m, name, cookie, password), name, fresh)[name].client == m[name].client,
        opened(credentials_set(m, name, cookie, password), name, fresh)[name].search_query
            == m[name].search_query,
{
}

/// A login without a session that asks for one gets the fresh session.
pub proof fn lemma_open_new(m: Map<Seq<char>, WebClient>, name: Seq<char>, fresh: WebClient)
    requires
        !m.contains_key(name),
    ensures
        opened(m, name, fresh)[name] == fresh,
        opened(m, name, fresh).remove(name) == m,
{
    assert(opened(m, name, fresh).remove(name) =~= m);
}

/// After a logout, or a failed login, the next ask for a session starts a
/// fresh one.
pub proof fn lemma_logout_then_open(m: Map<Seq<char>, WebClient>, name: Seq<char>, fresh: WebClient)
    ensures
        opened(m.remove(name), name, fresh)[name] == fresh,
{
}

/// What one login does leaves every other login's session as it was.
pub proof fn lemma_sessions_independent(
    m: Map<Seq<char>, WebClient>,
    name: Seq<char>,
    other: Seq<char>,
    fresh: WebClient,
    cookie: String,
    password: String,
)
    requires
        name != other,
    ensures
        opened(m, name, fresh).contains_key(other) == m.contains_key(other),
        m.contains_key(other) ==> opened(m, name, fresh)[other] == m[other],
        credentials_set(m, name, cookie, password).contains_key(other) == m.contains_key(other),
        m.contains_key(other) ==> credentials_set(m, name, cookie, password)[other] == m[other],
        m.remove(name).contains_key(other) == m.contains_key(other),
        m.contains_key(other) ==> m.remove(name)[other] == m[other],
{
}

// ---------------------------------------------------------------------------
// Paging through the organisation selector and the client list
// ---------------------------------------------------------------------------

/// `new` is `old` followed by more entries.
pub open spec fn extends<T>(old: Seq<T>, new: Seq<T>) -> bool {
    old.len() <= new.len() && new.take(old.len() as int) == old
}

/// Two pages gathered one after the other leave what each added, in order:
/// the first page's entries, then the second's, none lost or repeated.
pub proof fn lemma_pages_in_order<T>(a: Seq<T>, b: Seq<T>, c: Seq<T>)
    requires
        extends(a, b),
        extends(b, c),
    ensures
        extends(a, c),
        c.skip(a.len() as int) == b.skip(a.len() as int) + c.skip(b.len() as int),
{
    assert(c.take(a.len() as int) =~= a) by {
        assert forall|i: int| 0 <= i < a.len() implies c.take(a.len() as int)[i] == a[i] by {
            assert(c[i] == c.take(b.len() as int)[i]);
            assert(b[i] == b.take(a.len() as int)[i]);
        }
    }
    assert(c.skip(a.len() as int) =~= b.skip(a.len() as int) + c.skip(b.len() as int)) by {
        assert forall|i: int| 0 <= i < c.len() - a.len() implies c.skip(a.len() as int)[i]
            == (b.skip(a.len() as int) + c.skip(b.len() as int))[i] by {
            if a.len() + i < b.len() {
                assert(c[a.len() + i] == c.take(b.len() as int)[a.len() + i]);
            }
        }
    }
}

/// The organisations of the selector, gathered page by page, and the next
/// page to ask for.
pub struct OrgCollector {
    pub orgs: Vec<Organizaton>,
    pub next_page: i32,
}

/// One step of gathering organisations: `po` is what reading the
/// organisations of the page `html` gives, `ao` what reading its next-page
/// arrow gives; the step goes on (`more` is `Some`) where both read and the
/// page number can grow, and then adds exactly the page's organisations and
/// answers the arrow.
pub open spec fn org_step(
    html: Seq<char>,
    old_next: i32,
    po: Option<Seq<Organizaton>>,
    ao: Option<bool>,
    added: Seq<Organizaton>,
    more: Option<bool>,
) -> bool {
    &&& org_page_read(html, po)
    &&& arrow_read(html, ao)
    &&& more is Some <==> (po is Some && ao is Some && !(ao == Some(true) && old_next == i32::MAX))
    &&& more is Some ==> po == Some(added) && ao == more
}

impl OrgCollector {
    /// Starts with the organisations of the first page; page 2 comes next.
    /// `None` where `parse_org_page` is.
    pub fn new(first_page: &String) -> (r: Option<OrgCollector>)
        ensures
            org_page_read(
                first_page@,
                match r {
                    Some(c) => Some(c.orgs@),
                    None => None,
                },
            ),
            r matches Some(c) ==> c.next_page == 2,
    {
        match parse_org_page(first_page) {
            Some(orgs) => Some(OrgCollector { orgs, next_page: 2 }),
            None => None,
        }
    }

    /// Adds the organisations of the page just fetched; tells whether a
    /// further page exists, and then moves on to it. `None`, leaving the
    /// collector as it was, where the page cannot be read or the page
    /// number would overflow.
    pub fn add_page(&mut self, html: &String) -> (more: Option<bool>)
        ensures
            more is None ==> *final(self) == *old(self),
            more matches Some(m) ==> {
                &&& extends(old(self).orgs@, final(self).orgs@)
                &&& final(self).next_page == (if m {
                    old(self).next_page + 1
                } else {
                    old(self).next_page as int
                })
            },
            exists|po: Option<Seq<Organizaton>>, ao: Option<bool>|
                #[trigger] org_step(
                    html@,
                    old(self).next_page,
                    po,
                    ao,
                    final(self).orgs@.skip(old(self).orgs@.len() as int),
                    more,
                ),
    {
        let parsed = parse_org_page(html);
        let ghost po = orgs_view(parsed);
        let arrow = check_next_page(html);
        let ghost ao = arrow;
        let mut page = match parsed {
            Some(p) => p,
            None => {
                assert(org_step(html@, self.next_page, po, ao, self.orgs@.skip(self.orgs@.len() as int), None));
                return None;
            },
        };
        let more = match arrow {
            Some(m) => m,
            None => {
                assert(org_step(html@, self.next_page, po, ao, self.orgs@.skip(self.orgs@.len() as int), None));
                return None;
            },
        };
        if more && self.next_page == i32::MAX {
            assert(org_step(html@, self.next_page, po, ao, self.orgs@.skip(self.orgs@.len() as int), None));
            return None;
        }
        let ghost added = page@;
        self.orgs.append(&mut page);
        assert(self.orgs@.take(old(self).orgs@.len() as int) =~= old(self).orgs@);
        assert(self.orgs@.skip(old(self).orgs@.len() as int) =~= added);
        if more {
            self.next_page = self.next_page + 1;
        }
        assert(org_step(html@, old(self).next_page, po, ao, added, Some(more)));
        Some(more)
    }
}

/// The clients of a search, gathered page by page.
pub struct ClientCollector {
    pub clients: Vec<OrgClient>,
}

impl ClientCollector {
    /// No clients yet.
    pub fn new() -> (r: ClientCollector)
        ensures
            r.clients@ == Seq::<OrgClient>::empty(),
    {
        ClientCollector { clients: Vec::new() }
    }

    /// Adds the clients of a page of the client list; tells whether a
    /// further page exists. `None`, leaving the collector as it was, where
    /// the page cannot be read. What is added, and the answer, are what
    /// reading the page's clients gives.
    pub fn add_page(&mut self, html: &String) -> (more: Option<bool>)
        ensures
            more is None ==> *final(self) == *old(self),
            more is Some ==> extends(old(self).clients@, final(self).clients@),
            clients_read(html@, added_page(final(self).clients@.skip(old(self).clients@.len() as int), more)),
    {
        match parse_clients_page(html) {
            Some((mut part, more)) => {
                let ghost added = part@;
                self.clients.append(&mut part);
                assert(self.clients@.take(old(self).clients@.len() as int) =~= old(self).clients@);
                assert(self.clients@.skip(old(self).clients@.len() as int) =~= added);
                Some(more)
            },
            None => None,
        }
    }
}

// ---------------------------------------------------------------------------
// Search fields
// ---------------------------------------------------------------------------

/// The values a client search fills in: the ID (empty for a name search),
/// the three name parts and the show-deleted check box (`on` or empty).
pub struct SearchFields {
    pub id: String,
    pub last_name: String,
    pub name: String,
    pub surname: String,
    pub show_deleted: String,
}

/// Reads a client search into the values of the search form: the ID written
/// in decimal, or empty where the search is by name; the name parts of
/// `convert_to_id_and_fullname`; `on` where deleted clients are shown.
pub fn search_fields(query: &SearchQuery) -> (r: SearchFields)
    ensures
        ({
            let id = web_api::search_id(query.search@);
            let ws = crate::text::words(query.search@);
            &&& r.id@ == (if id == 0 {
                Seq::<char>::empty()
            } else {
                crate::text::decimal(id as int)
            })
            &&& id != 0 ==> r.last_name@.len() == 0 && r.name@.len() == 0 && r.surname@.len() == 0
            &&& id == 0 ==> r.last_name@ == web_api::search_last_name(ws) && r.name@
                == web_api::search_name(ws) && r.surname@ == web_api::search_surname(ws)
            &&& r.show_deleted@ == (if query.deleted {
                seq!['o', 'n']
            } else {
                Seq::<char>::empty()
            })
        }),
{
    let (id, full_name) = web_api::convert_to_id_and_fullname(query.search.clone());
    let id_field = if id == 0 {
        String::new()
    } else {
        crate::text::decimal_i32(id)
    };
    let show_deleted = if query.deleted {
        proof {
            reveal_strlit("on");
        }
        "on".to_owned()
    } else {
        String::new()
    };
    SearchFields {
        id: id_field,
        last_name: full_name.last_name,
        name: full_name.name,
        surname: full_name.surname,
        show_deleted,
    }
}
} // verus!
