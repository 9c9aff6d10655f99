//! Second generation of the handlers: person names split into parts,
//! organisation filter and card selector for the full download.
use vstd::prelude::*;

pub use super::{AccessData, CurrentSearchPage, Name, Organizaton};
use crate::assoc::{
    keys_distinct, lemma_map_of_dom, lemma_map_of_index, lemma_push_new, lemma_remove_at,
    lemma_set_at, map_of,
};
use super::{client_page_rows, client_rows_read, extends, lemma_client_page_rows_long};
use crate::text::{
    contains_char, join_from, joined, lemma_trimmed_words, lemma_words_are_words,
    lemma_words_of_joined, lemma_words_single, parse_i32, parsed_i32, split_words, trim, trimmed,
    words, decimal, decimal_i32, decimal_u32,
};

verus! {

/// A person's name in its three parts.
pub struct FullName {
    pub last_name: String,
    pub name: String,
    pub surname: String,
}

/// The number a search string stands for: the trimmed string read as a
/// decimal `i32`, and 0 where it is no such number.
pub open spec fn search_id(search: Seq<char>) -> i32 {
    match parsed_i32(trimmed(search)) {
        Some(v) => v,
        None => 0,
    }
}

/// The word at `i` of `ws` unless it holds a `*` (a wildcard the back office
/// does not take), else empty.
pub open spec fn plain_word(ws: Seq<Seq<char>>, i: int) -> Seq<char> {
    if i < ws.len() && !ws[i].contains('*') {
        ws[i]
    } else {
        Seq::empty()
    }
}

/// The last name a name search asks for: a lone word as it is, otherwise the
/// first word unless it holds a `*`.
pub open spec fn search_last_name(ws: Seq<Seq<char>>) -> Seq<char> {
    if ws.len() == 1 {
        ws[0]
    } else {
        plain_word(ws, 0)
    }
}

/// The given name a name search asks for.
pub open spec fn search_name(ws: Seq<Seq<char>>) -> Seq<char> {
    if ws.len() >= 2 {
        plain_word(ws, 1)
    } else {
        Seq::empty()
    }
}

/// The patronymic a name search asks for.
pub open spec fn search_surname(ws: Seq<Seq<char>>) -> Seq<char> {
    if ws.len() >= 3 {
        plain_word(ws, 2)
    } else {
        Seq::empty()
    }
}

fn empty_full_name() -> (r: FullName)
    ensures
        r.last_name@ == Seq::<char>::empty(),
        r.name@ == Seq::<char>::empty(),
        r.surname@ == Seq::<char>::empty(),
{
    FullName { name: String::new(), last_name: String::new(), surname: String::new() }
}

/// Reads a search string as either a numeric ID or a name of up to three
/// words. The ID is the trimmed string read as an `i32` (0 where it is not
/// one); only when it is 0 are the name parts filled, from the words of the
/// string: a lone word is the last name; with two or more words the first
/// three are last name, name and patronymic, each left empty if it holds a
/// `*`.
pub fn convert_to_id_and_fullname(search: String) -> (r: (i32, FullName))
    ensures
        r.0 == search_id(search@),
        r.0 != 0 ==> r.1.last_name@.len() == 0 && r.1.name@.len() == 0 && r.1.surname@.len() == 0,
        r.0 == 0 ==> {
            let ws = words(search@);
            &&& r.1.last_name@ == search_last_name(ws)
            &&& r.1.name@ == search_name(ws)
            &&& r.1.surname@ == search_surname(ws)
        },
        r.0 == 0 ==> {
            let ws = words(search@);
            &&& ws.len() == 1 ==> r.1.last_name@ == ws[0]
            &&& ws.len() >= 2 && !ws[0].contains('*') ==> r.1.last_name@ == ws[0]
            &&& ws.len() >= 2 && !ws[1].contains('*') ==> r.1.name@ == ws[1]
            &&& ws.len() >= 3 && !ws[2].contains('*') ==> r.1.surname@ == ws[2]
            &&& ws.len() == 0 || (ws.len() >= 2 && ws[0].contains('*')) ==> r.1.last_name@.len() == 0
            &&& ws.len() < 2 || ws[1].contains('*') ==> r.1.name@.len() == 0
            &&& ws.len() < 3 || ws[2].contains('*') ==> r.1.surname@.len() == 0
        },
{
    let trimmed_search = trim(search.as_str());
    let id = match parse_i32(trimmed_search.as_str()) {
        Some(v) => v,
        None => 0,
    };
    let mut full_name = empty_full_name();
    if id == 0 {
        let arr = split_words(trimmed_search.as_str());
        proof {
            lemma_trimmed_words(search@);
        }
        let ghost ws = arr.deep_view();
        assert(ws.len() == arr.len());
        if arr.len() == 1 {
            full_name.last_name = arr[0].clone();
        } else if arr.len() >= 2 {
            assert(ws[0] == arr[0]@ && ws[1] == arr[1]@);
            if !contains_char(arr[0].as_str(), '*') {
                full_name.last_name = arr[0].clone();
            }
            if !contains_char(arr[1].as_str(), '*') {
                full_name.name = arr[1].clone();
            }
            if arr.len() >= 3 {
                assert(ws[2] == arr[2]@);
                if !contains_char(arr[2].as_str(), '*') {
                    full_name.surname = arr[2].clone();
                }
            }
        }
    }
    (id, full_name)
}

/// `f` holds the parts of the displayed name `s`.
pub open spec fn fullname_matches(f: FullName, s: Seq<char>) -> bool {
    let ws = words(s);
    &&& f.last_name@ == (if ws.len() >= 1 {
        ws[0]
    } else {
        Seq::<char>::empty()
    })
    &&& f.name@ == (if ws.len() >= 2 {
        ws[1]
    } else {
        Seq::<char>::empty()
    })
    &&& f.surname@ == (if ws.len() >= 3 {
        joined(ws.skip(2), seq![' '])
    } else {
        Seq::<char>::empty()
    })
}

/// The parts of a displayed person name: first word last name, second word
/// name, and the remaining words, joined by single spaces, patronymic.
pub fn get_fullname(fullname: String) -> (r: FullName)
    ensures
        fullname_matches(r, fullname@),
{
    let mut full_name = empty_full_name();
    let trimmed_name = trim(fullname.as_str());
    let arr = split_words(trimmed_name.as_str());
    proof {
        lemma_trimmed_words(fullname@);
    }
    let ghost ws = arr.deep_view();
    assert(ws.len() == arr.len());
    if arr.len() >= 1 {
        assert(ws[0] == arr[0]@);
        full_name.last_name = arr[0].clone();
    }
    if arr.len() >= 2 {
        assert(ws[1] == arr[1]@);
        full_name.name = arr[1].clone();
    }
    if arr.len() >= 3 {
        let surname = join_from(&arr, 2, " ");
        proof {
            reveal_strlit(" ");
            assert(" "@ =~= seq![' ']);
        }
        full_name.surname = surname;
    }
    full_name
}

/// Splitting a displayed name loses no word: the words of the last name,
/// the name and the patronymic, in that order, are the words of the input.
pub proof fn lemma_get_fullname_keeps_words(input: Seq<char>, f: FullName)
    requires
        fullname_matches(f, input),
    ensures
        words(f.last_name@) + words(f.name@) + words(f.surname@) == words(input),
{
    let ws = words(input);
    lemma_words_are_words(input);
    let e = Seq::<char>::empty();
    assert(words(e) =~= Seq::<Seq<char>>::empty());
    if ws.len() >= 1 {
        assert(ws[0].len() > 0 && crate::text::no_space(ws[0]));
        lemma_words_single(ws[0]);
    }
    if ws.len() >= 2 {
        assert(ws[1].len() > 0 && crate::text::no_space(ws[1]));
        lemma_words_single(ws[1]);
    }
    if ws.len() >= 3 {
        let rest = ws.skip(2);
        assert forall|i: int| 0 <= i < rest.len() implies (#[trigger] rest[i]).len() > 0
            && crate::text::no_space(rest[i]) by {
            assert(rest[i] == ws[i + 2]);
        }
        lemma_words_of_joined(rest);
        assert(seq![ws[0]] + seq![ws[1]] + rest =~= ws);
    } else if ws.len() == 2 {
        assert(seq![ws[0]] + seq![ws[1]] + Seq::<Seq<char>>::empty() =~= ws);
    } else if ws.len() == 1 {
        assert(seq![ws[0]] + Seq::<Seq<char>>::empty() + Seq::<Seq<char>>::empty() =~= ws);
    } else {
        assert(ws =~= Seq::<Seq<char>>::empty());
    }
}

/// A client search: free text (an ID or a name), the organisation to search
/// in (0 for none) and whether deleted clients are shown.
pub struct SearchQuery {
    pub search: String,
    pub org_id: i32,
    pub show_deleted: bool,
}

/// What a full download of an organisation's clients takes: the
/// organisation, the card selector and whether deleted clients are shown.
pub struct FullDownloadQuery {
    pub org_id: i32,
    pub cards: i32,
    pub show_deleted: bool,
}

/// A login and the row of the client list to open.
pub struct QueryPerson {
    pub login: String,
    pub num: u32,
}

/// One row of the client list, the person's name split into its parts.
pub struct OrgClient {
    pub id: String,
    pub fullname: FullName,
    pub group: String,
    pub org: String,
    pub balance: String,
}

/// One page of the client list and whether a further page exists.
pub struct OrgClientsWithNextPage {
    pub org_clients: Vec<OrgClient>,
    pub next_page_exist: bool,
}

/// The client of one row: cells 1, 3, 4, 6 and 7 give ID, name (split into
/// its parts), group, organisation and balance.
pub open spec fn client_matches(c: OrgClient, cells: Seq<Seq<char>>) -> bool {
    &&& c.id@ == cells[1]
    &&& fullname_matches(c.fullname, cells[3])
    &&& c.group@ == cells[4]
    &&& c.org@ == cells[6]
    &&& c.balance@ == cells[7]
}

/// The client of one row of the client list.
pub fn client_from_cells(cells: &Vec<String>) -> (r: OrgClient)
    requires
        cells.len() >= 8,
    ensures
        client_matches(r, cells.deep_view()),
{
    OrgClient {
        id: cells[1].clone(),
        fullname: get_fullname(cells[3].clone()),
        group: cells[4].clone(),
        org: cells[6].clone(),
        balance: cells[7].clone(),
    }
}

/// Each client is the one of its row.
pub open spec fn clients_of_cells(clients: Seq<OrgClient>, cells: Seq<Seq<Seq<char>>>) -> bool {
    &&& clients.len() == cells.len()
    &&& forall|i: int| 0 <= i < clients.len() ==> client_matches(#[trigger] clients[i], cells[i])
}

/// `r` are the clients of the read client rows `cells`, one per row, in
/// order, with the same answer on a further page; `None` where `cells` is.
pub open spec fn clients_of_page(cells: Option<(Seq<Seq<Seq<char>>>, bool)>, r: Option<(Seq<OrgClient>, bool)>) -> bool {
    match cells {
        None => r is None,
        Some(p) => r is Some && r.unwrap().1 == p.1 && clients_of_cells(r.unwrap().0, p.0),
    }
}

/// What reading the clients of the page `html` gives: the clients of what
/// reading its client rows gives.
pub open spec fn clients_read(html: Seq<char>, r: Option<(Seq<OrgClient>, bool)>) -> bool {
    exists|cells: Option<(Seq<Seq<Seq<char>>>, bool)>|
        #[trigger] client_rows_read(html, cells) && clients_of_page(cells, r)
}

/// A page of clients as sequences.
pub open spec fn page_view(r: Option<(Vec<OrgClient>, bool)>) -> Option<(Seq<OrgClient>, bool)> {
    match r {
        Some(p) => Some((p.0@, p.1)),
        None => None,
    }
}

/// The clients a collector added and its answer, as a page read.
pub open spec fn added_page(added: Seq<OrgClient>, more: Option<bool>) -> Option<(Seq<OrgClient>, bool)> {
    match more {
        Some(m) => Some((added, m)),
        None => None,
    }
}

/// The clients of the given rows, one per row, in order.
pub fn clients_from_rows(cells: &Vec<Vec<String>>) -> (r: Vec<OrgClient>)
    requires
        forall|i: int| 0 <= i < cells.len() ==> (#[trigger] cells.deep_view()[i]).len() >= 8,
    ensures
        clients_of_cells(r@, cells.deep_view()),
{
    let mut out: Vec<OrgClient> = Vec::new();
    let n = cells.len();
    let mut i: usize = 0;
    while i < n
        invariant
            n == cells.len(),
            i <= n,
            out.len() == i,
            forall|k: int| 0 <= k < n ==> (#[trigger] cells.deep_view()[k]).len() >= 8,
            forall|k: int| 0 <= k < i ==> client_matches(#[trigger] out[k], cells.deep_view()[k]),
        decreases n - i,
    {
        assert(cells.deep_view()[i as int] == cells[i as int].deep_view());
        out.push(client_from_cells(&cells[i]));
        i = i + 1;
    }
    out
}

/// The clients of a page of the client list, one per client row, and
/// whether a further page exists; `None` where `client_page_rows` is.
pub fn parse_clients_page(client_html: &String) -> (r: Option<(Vec<OrgClient>, bool)>)
    ensures
        clients_read(client_html@, page_view(r)),
{
    let rows = client_page_rows(client_html);
    let ghost cells = rows.deep_view();
    match rows {
        Some((cells, next_page_exist)) => {
            proof {
                lemma_client_page_rows_long(client_html@, (cells.deep_view(), next_page_exist));
                assert(cells.deep_view().len() == cells.len());
            }
            let clients = clients_from_rows(&cells);
            let r = Some((clients, next_page_exist));
            assert(clients_of_page(Some((cells.deep_view(), next_page_exist)), page_view(r)));
            r
        },
        None => {
            assert(clients_of_page(cells, None));
            None
        },
    }
}

/// The name parts a search asks for are its words in place: a lone word
/// is the last name; with more words, the first three are last name, name
/// and patronymic, each empty where it holds a `*`; a part past the last
/// word is empty.
pub proof fn lemma_search_parts_are_words(ws: Seq<Seq<char>>)
    ensures
        ws.len() == 1 ==> search_last_name(ws) == ws[0],
        ws.len() >= 2 && !ws[0].contains('*') ==> search_last_name(ws) == ws[0],
        ws.len() >= 2 && !ws[1].contains('*') ==> search_name(ws) == ws[1],
        ws.len() >= 3 && !ws[2].contains('*') ==> search_surname(ws) == ws[2],
        ws.len() == 0 || (ws.len() >= 2 && ws[0].contains('*')) ==> search_last_name(ws).len() == 0,
        ws.len() < 2 || ws[1].contains('*') ==> search_name(ws).len() == 0,
        ws.len() < 3 || ws[2].contains('*') ==> search_surname(ws).len() == 0,
{
}

/// Whitespace around a search changes nothing of what it asks for: the
/// same ID, and the same words, so the same name parts.
pub proof fn lemma_search_padding(w1: Seq<char>, search: Seq<char>, w2: Seq<char>)
    requires
        crate::text::all_space(w1),
        crate::text::all_space(w2),
    ensures
        search_id(w1 + search + w2) == search_id(search),
        words(w1 + search + w2) == words(search),
        search_last_name(words(w1 + search + w2)) == search_last_name(words(search)),
        search_name(words(w1 + search + w2)) == search_name(words(search)),
        search_surname(words(w1 + search + w2)) == search_surname(words(search)),
{
    crate::text::lemma_padding(w1, search, w2);
}

/// The parts of a displayed name, those that are not empty joined by single
/// spaces.
pub open spec fn parts_joined(last_name: Seq<char>, name: Seq<char>, surname: Seq<char>) -> Seq<char> {
    joined(seq![last_name, name, surname].filter(|p: Seq<char>| p.len() > 0), seq![' '])
}

/// `parts_joined` where a later part is only filled where the earlier ones
/// are.
spec fn parts_joined_in_order(last_name: Seq<char>, name: Seq<char>, surname: Seq<char>) -> Seq<char> {
    if last_name.len() == 0 {
        Seq::empty()
    } else if name.len() == 0 {
        last_name
    } else if surname.len() == 0 {
        last_name + seq![' '] + name
    } else {
        last_name + seq![' '] + name + seq![' '] + surname
    }
}

/// The parts of a displayed name fill from the front, the last name and the
/// name hold no whitespace, and the non-empty parts joined by single spaces
/// are the input's words joined by single spaces.
pub proof fn lemma_get_fullname_joins(input: Seq<char>, f: FullName)
    requires
        fullname_matches(f, input),
    ensures
        f.name@.len() > 0 ==> f.last_name@.len() > 0,
        f.surname@.len() > 0 ==> f.name@.len() > 0,
        crate::text::no_space(f.last_name@),
        crate::text::no_space(f.name@),
        parts_joined(f.last_name@, f.name@, f.surname@) == joined(words(input), seq![' ']),
{
    lemma_parts_in_order(input, f);
    let (l, n, s) = (f.last_name@, f.name@, f.surname@);
    let parts = seq![l, n, s];
    let keep = |p: Seq<char>| p.len() > 0;
    reveal_with_fuel(Seq::filter, 4);
    assert(parts.drop_last() =~= seq![l, n]);
    assert(parts.drop_last().drop_last() =~= seq![l]);
    assert(parts.drop_last().drop_last().drop_last() =~= Seq::<Seq<char>>::empty());
    let kept = parts.filter(keep);
    let sp = seq![' '];
    if l.len() == 0 {
        assert(kept =~= Seq::<Seq<char>>::empty());
        assert(joined(kept, sp) == parts_joined_in_order(l, n, s));
    } else if n.len() == 0 {
        assert(kept =~= seq![l]);
        assert(joined(kept, sp) == parts_joined_in_order(l, n, s));
    } else if s.len() == 0 {
        assert(kept =~= seq![l, n]);
        lemma_joined_two(l, n);
        assert(joined(kept, sp) == parts_joined_in_order(l, n, s));
    } else {
        assert(kept =~= seq![l, n, s]);
        let two = seq![l, n];
        assert(kept.drop_last() =~= two);
        lemma_joined_two(l, n);
        assert(joined(kept, sp) == joined(two, sp) + sp + s);
        assert(joined(kept, sp) == parts_joined_in_order(l, n, s));
    }
    assert(parts_joined(l, n, s) == joined(kept, sp));
}

proof fn lemma_joined_two(a: Seq<char>, b: Seq<char>)
    ensures
        joined(seq![a, b], seq![' ']) == a + seq![' '] + b,
{
    let ab = seq![a, b];
    assert(ab.drop_last() =~= seq![a]);
    assert(joined(ab.drop_last(), seq![' ']) == a);
    assert(ab.last() == b);
    assert(joined(ab, seq![' ']) == joined(ab.drop_last(), seq![' ']) + seq![' '] + ab.last());
}

proof fn lemma_parts_in_order(input: Seq<char>, f: FullName)
    requires
        fullname_matches(f, input),
    ensures
        f.name@.len() > 0 ==> f.last_name@.len() > 0,
        f.surname@.len() > 0 ==> f.name@.len() > 0,
        crate::text::no_space(f.last_name@),
        crate::text::no_space(f.name@),
        parts_joined_in_order(f.last_name@, f.name@, f.surname@) == joined(words(input), seq![' ']),
{
    let ws = words(input);
    lemma_words_are_words(input);
    if ws.len() >= 1 {
        assert(ws[0].len() > 0 && crate::text::no_space(ws[0]));
    }
    if ws.len() >= 2 {
        assert(ws[1].len() > 0 && crate::text::no_space(ws[1]));
    }
    if ws.len() == 0 {
        assert(joined(ws, seq![' ']) == Seq::<char>::empty());
    } else if ws.len() == 1 {
        assert(joined(ws, seq![' ']) == ws[0]);
    } else if ws.len() == 2 {
        assert(ws.drop_last() =~= seq![ws[0]]);
        assert(joined(ws.drop_last(), seq![' ']) == ws[0]);
        assert(joined(ws, seq![' ']) == joined(ws.drop_last(), seq![' ']) + seq![' '] + ws.last());
    } else if ws.len() >= 3 {
        let rest = ws.skip(2);
        assert(rest[0].len() > 0) by {
            assert(rest[0] == ws[2]);
        }
        crate::text::lemma_joined_rest(ws);
        lemma_joined_nonempty(rest);
    }
}

proof fn lemma_joined_nonempty(ws: Seq<Seq<char>>)
    requires
        ws.len() > 0,
        ws[0].len() > 0,
    ensures
        joined(ws, seq![' ']).len() > 0,
    decreases ws.len(),
{
    if ws.len() > 1 {
        let init = ws.drop_last();
        assert(init[0] == ws[0]);
    }
}

/// A search for a number as the gateway prints it finds that number.
pub proof fn lemma_search_printed_id(n: i32)
    ensures
        search_id(decimal(n as int)) == n,
{
    let s = decimal(n as int);
    crate::text::lemma_parse_decimal(n);
    crate::text::lemma_decimal_has_no_space(n as int);
    assert(trimmed(s) == s);
}

/// Which clients a full download takes, by their cards.
pub enum Cards {
    NoSelected,
    WithCards,
    NoCards,
}

impl Cards {
    /// The form value of the card selector.
    pub fn value(&self) -> (r: &'static str)
        ensures
            r@ == (match self {
                Cards::NoSelected => seq!['0'],
                Cards::WithCards => seq!['1'],
                Cards::NoCards => seq!['2'],
            }),
    {
        proof {
            reveal_strlit("0");
            reveal_strlit("1");
            reveal_strlit("2");
        }
        match self {
            Cards::NoSelected => "0",
            Cards::WithCards => "1",
            Cards::NoCards => "2",
        }
    }
}


// ---------------------------------------------------------------------------
// Handler decisions
// ---------------------------------------------------------------------------

/// What a client search changes in the search form: by ID, only the ID
/// field; by name, the organisation filter (where an organisation is
/// chosen), the show-deleted check box and the three name fields.
pub struct SearchPlan {
    pub id: Option<String>,
    pub org_filter: Option<String>,
    pub show_deleted: Option<bool>,
    pub names: Option<FullName>,
}

/// The changes a client search makes to the search form.
pub fn search_plan(query: &SearchQuery) -> (r: SearchPlan)
    ensures
        ({
            let id = search_id(query.search@);
            let ws = words(query.search@);
            &&& id != 0 ==> {
                &&& r.id matches Some(s) && s@ == decimal(id as int)
                &&& r.org_filter is None && r.show_deleted is None && r.names is None
            }
            &&& id == 0 ==> {
                &&& r.id is None
                &&& r.org_filter is Some <==> query.org_id != 0
                &&& r.org_filter matches Some(s) ==> s@ == decimal(query.org_id as int)
                &&& r.show_deleted == Some(query.show_deleted)
                &&& r.names matches Some(f) && f.last_name@ == search_last_name(ws) && f.name@
                    == search_name(ws) && f.surname@ == search_surname(ws)
            }
        }),
{
    let (id, full_name) = convert_to_id_and_fullname(query.search.clone());
    if id != 0 {
        SearchPlan { id: Some(decimal_i32(id)), org_filter: None, show_deleted: None, names: None }
    } else {
        let org_filter = if query.org_id != 0 {
            Some(decimal_i32(query.org_id))
        } else {
            None
        };
        SearchPlan {
            id: None,
            org_filter,
            show_deleted: Some(query.show_deleted),
            names: Some(full_name),
        }
    }
}

/// Reply to a full download without an organisation.
pub const NO_ORG_CHOSEN: &'static str = "Не выбрана организация";

/// The form values of a full download: the organisation and the card
/// selector, both in decimal.
pub struct DownloadPlan {
    pub org_id: String,
    pub cards: String,
}

/// The form values of a full download; refused, with its reply, where no
/// organisation is chosen.
pub fn download_plan(query: &FullDownloadQuery) -> (r: Result<DownloadPlan, String>)
    ensures
        query.org_id == 0 <==> r is Err,
        r matches Err(e) ==> e@ == NO_ORG_CHOSEN@,
        r matches Ok(p) ==> p.org_id@ == decimal(query.org_id as int) && p.cards@ == decimal(
            query.cards as int,
        ),
{
    if query.org_id == 0 {
        return Err(NO_ORG_CHOSEN.to_owned());
    }
    Ok(DownloadPlan { org_id: decimal_i32(query.org_id), cards: decimal_i32(query.cards) })
}

/// The form key that opens row `num` of the client list.
pub fn person_row_key(num: u32) -> (r: String)
    ensures
        r@ == "workspaceSubView:workspaceForm:workspacePageSubView:clientListTable:"@ + decimal(
            num as int,
        ) + ":j_id_jsp_635818149_64pc51"@,
{
    let head = "workspaceSubView:workspaceForm:workspacePageSubView:clientListTable:".to_owned();
    let with_num = head.concat(decimal_u32(num).as_str());
    with_num.concat(":j_id_jsp_635818149_64pc51")
}

/// The clients of a full download, gathered page by page.
pub struct ClientCollector {
    pub clients: Vec<OrgClient>,
}

impl ClientCollector {
    /// No clients yet.
    pub fn new() -> (r: ClientCollector)
        ensures
            r.clients@ == Seq::<OrgClient>::empty(),
    {
        ClientCollector { clients: Vec::new() }
    }

    /// Adds the clients of a page of the client list; tells whether a
    /// further page exists. `None`, leaving the collector as it was, where
    /// the page cannot be read.
    pub fn add_page(&mut self, html: &String) -> (more: Option<bool>)
        ensures
            more is None ==> *final(self) == *old(self),
            more is Some ==> extends(old(self).clients@, final(self).clients@),
            clients_read(html@, added_page(final(self).clients@.skip(old(self).clients@.len() as int), more)),
    {
        match parse_clients_page(html) {
            Some((mut part, more)) => {
                let ghost added = part@;
                self.clients.append(&mut part);
                assert(self.clients@.take(old(self).clients@.len() as int) =~= old(self).clients@);
                assert(self.clients@.skip(old(self).clients@.len() as int) =~= added);
                Some(more)
            },
            None => None,
        }
    }
}


// ---------------------------------------------------------------------------
// Forms
// ---------------------------------------------------------------------------

/// The map that a list of form fields stands for: a later field replaces an
/// earlier one of the same name, as `HashMap::from` does.
pub open spec fn fields_map(fields: Seq<(Seq<char>, Seq<char>)>) -> Map<Seq<char>, Seq<char>>
    decreases fields.len(),
{
    if fields.len() == 0 {
        Map::empty()
    } else {
        fields_map(fields.drop_last()).insert(fields.last().0, fields.last().1)
    }
}

/// A form to post: the value of each field, by name.
pub struct Form {
    fields: Vec<(String, String)>,
}

impl View for Form {
    type V = Map<Seq<char>, Seq<char>>;

    closed spec fn view(&self) -> Map<Seq<char>, Seq<char>> {
        map_of(self.fields@).map_values(|v: String| v@)
    }
}

/// `m` with `key` set to `value` where `key` is a field already.
pub open spec fn with_existing(m: Map<Seq<char>, Seq<char>>, key: Seq<char>, value: Seq<char>) -> Map<
    Seq<char>,
    Seq<char>,
> {
    if m.contains_key(key) {
        m.insert(key, value)
    } else {
        m
    }
}

impl Form {
    /// No field names a field twice.
    pub closed spec fn wf(&self) -> bool {
        keys_distinct(self.fields@)
    }

    /// A form without fields.
    pub fn new() -> (r: Form)
        ensures
            r.wf(),
            r@ == Map::<Seq<char>, Seq<char>>::empty(),
    {
        let r = Form { fields: Vec::new() };
        assert(r@ =~= Map::<Seq<char>, Seq<char>>::empty());
        r
    }

    fn find(&self, key: &String) -> (r: Option<usize>)
        requires
            self.wf(),
        ensures
            match r {
                Some(i) => i < self.fields.len() && self.fields@[i as int].0@ == key@,
                None => !self@.contains_key(key@),
            },
    {
        let n = self.fields.len();
        let mut i: usize = 0;
        while i < n
            invariant
                n == self.fields.len(),
                i <= n,
                forall|k: int| 0 <= k < i ==> (#[trigger] self.fields@[k]).0@ != key@,
            decreases n - i,
        {
            if self.fields[i].0 == *key {
                return Some(i);
            }
            i = i + 1;
        }
        proof {
            lemma_map_of_dom(self.fields@, key@);
        }
        None
    }

    /// Sets field `key` to `value`, adding the field where it is missing.
    pub fn insert(&mut self, key: String, value: String)
        requires
            old(self).wf(),
        ensures
            final(self).wf(),
            final(self)@ == old(self)@.insert(key@, value@),
    {
        let ghost k = key@;
        let ghost v = value@;
        match self.find(&key) {
            Some(i) => {
                proof {
                    lemma_set_at(self.fields@, i as int, (key, value));
                }
                self.fields.set(i, (key, value));
            },
            None => {
                proof {
                    lemma_push_new(self.fields@, (key, value));
                }
                self.fields.push((key, value));
            },
        }
        assert(self@ =~= old(self)@.insert(k, v));
    }

    /// Drops field `key`, if any.
    pub fn remove(&mut self, key: &String)
        requires
            old(self).wf(),
        ensures
            final(self).wf(),
            final(self)@ == old(self)@.remove(key@),
    {
        match self.find(key) {
            Some(i) => {
                proof {
                    lemma_remove_at(self.fields@, i as int);
                }
                self.fields.remove(i);
            },
            None => {},
        }
        assert(self@ =~= old(self)@.remove(key@));
    }

    /// Sets field `key` to `value` where the form has that field
    /// (`entry(key).and_modify`).
    pub fn set_existing(&mut self, key: &String, value: String)
        requires
            old(self).wf(),
        ensures
            final(self).wf(),
            final(self)@ == with_existing(old(self)@, key@, value@),
    {
        match self.find(key) {
            Some(i) => {
                proof {
                    lemma_map_of_index(self.fields@, i as int);
                }
                self.insert(key.clone(), value);
            },
            None => {},
        }
    }

    /// The form of the given fields, a later one replacing an earlier one
    /// of the same name (`HashMap::from`).
    pub fn from_fields(fields: &Vec<(String, String)>) -> (r: Form)
        ensures
            r.wf(),
            r@ == fields_map(fields.deep_view()),
    {
        let mut form = Form::new();
        let n = fields.len();
        let mut i: usize = 0;
        while i < n
            invariant
                n == fields.len(),
                i <= n,
                form.wf(),
                form@ == fields_map(fields.deep_view().take(i as int)),
            decreases n - i,
        {
            assert(fields.deep_view().take(i + 1).drop_last() =~= fields.deep_view().take(i as int));
            assert(fields.deep_view()[i as int] == (fields[i as int].0@, fields[i as int].1@));
            form.insert(fields[i].0.clone(), fields[i].1.clone());
            i = i + 1;
        }
        assert(fields.deep_view().take(n as int) =~= fields.deep_view());
        form
    }

    /// The fields of the form, each name once, to be posted.
    pub fn fields(&self) -> (r: Vec<(String, String)>)
        requires
            self.wf(),
        ensures
            fields_map(r.deep_view()) == self@,
    {
        let copy = self.copy();
        proof {
            lemma_fields_map_distinct(copy.fields@);
            assert(copy.fields.deep_view() =~= copy.fields@.map_values(
                |e: (String, String)| (e.0@, e.1@),
            ));
        }
        copy.fields
    }

    /// A copy of the form, field for field.
    fn copy(&self) -> (r: Form)
        requires
            self.wf(),
        ensures
            r.wf(),
            r@ == self@,
            r.fields@.len() == self.fields@.len(),
            forall|i: int|
                0 <= i < r.fields@.len() ==> (#[trigger] r.fields@[i]).0@ == self.fields@[i].0@
                    && r.fields@[i].1@ == self.fields@[i].1@,
    {
        let mut out: Vec<(String, String)> = Vec::new();
        let n = self.fields.len();
        let mut i: usize = 0;
        while i < n
            invariant
                n == self.fields.len(),
                i <= n,
                out.len() == i,
                forall|k: int|
                    0 <= k < i ==> (#[trigger] out@[k]).0 == self.fields@[k].0 && out@[k].1
                        == self.fields@[k].1,
            decreases n - i,
        {
            out.push((self.fields[i].0.clone(), self.fields[i].1.clone()));
            i = i + 1;
        }
        assert(out@ =~= self.fields@);
        Form { fields: out }
    }
}

proof fn lemma_fields_map_distinct(s: Seq<(String, String)>)
    ensures
        fields_map(s.map_values(|e: (String, String)| (e.0@, e.1@))) == map_of(s).map_values(
            |v: String| v@,
        ),
    decreases s.len(),
{
    let t = s.map_values(|e: (String, String)| (e.0@, e.1@));
    if s.len() > 0 {
        lemma_fields_map_distinct(s.drop_last());
        assert(t.drop_last() =~= s.drop_last().map_values(|e: (String, String)| (e.0@, e.1@)));
        assert(map_of(s).map_values(|v: String| v@) =~= map_of(s.drop_last()).map_values(
            |v: String| v@,
        ).insert(s.last().0@, s.last().1@));
    } else {
        assert(fields_map(t) =~= map_of(s).map_values(|v: String| v@));
    }
}

/// The names of the fields that the organisation filter edits.
pub struct FilterKeys {
    pub submit_search: String,
    pub open_org_search: String,
    pub org_filter_by_id: String,
    pub org_modal_filter: String,
    pub ajax_events_count: String,
    pub first_table_row: String,
    pub submit_selected_row: String,
}

/// What the organisation filter posts, and the search form it leaves: the
/// search form, its submit button swapped for the one that opens the
/// organisation selector; the filter form with the organisation ID; that
/// form without its modal-filter field and event count and with a click on
/// the first table row; the same with the row's selection confirmed. The
/// search form left has the selector button dropped, an event count of `1`
/// and its submit button back.
pub fn org_filter_forms(search_form: &Form, org_filter: &Form, org_id: &String, keys: &FilterKeys) -> (r: (
    Vec<Form>,
    Form,
))
    requires
        search_form.wf(),
        org_filter.wf(),
    ensures
        r.0.len() == 4,
        forall|i: int| 0 <= i < 4 ==> (#[trigger] r.0[i]).wf(),
        r.1.wf(),
        r.0[0]@ == search_form@.remove(keys.submit_search@).insert(
            keys.open_org_search@,
            keys.open_org_search@,
        ),
        r.0[1]@ == with_existing(org_filter@, keys.org_filter_by_id@, org_id@),
        r.0[2]@ == r.0[1]@.remove(keys.org_modal_filter@).remove(keys.ajax_events_count@).insert(
            keys.first_table_row@,
            keys.first_table_row@,
        ),
        r.0[3]@ == r.0[2]@.remove(keys.first_table_row@).insert(
            keys.submit_selected_row@,
            keys.submit_selected_row@,
        ),
        r.1@ == r.0[0]@.remove(keys.open_org_search@).insert(keys.ajax_events_count@, seq!['1']).insert(
            keys.submit_search@,
            keys.submit_search@,
        ),
{
    let mut posted: Vec<Form> = Vec::new();
    let mut search = search_form.copy();
    search.remove(&keys.submit_search);
    search.insert(keys.open_org_search.clone(), keys.open_org_search.clone());
    posted.push(search.copy());
    search.remove(&keys.open_org_search);

    let mut set_filter = org_filter.copy();
    set_filter.set_existing(&keys.org_filter_by_id, org_id.clone());
    posted.push(set_filter.copy());

    set_filter.remove(&keys.org_modal_filter);
    set_filter.remove(&keys.ajax_events_count);
    set_filter.insert(keys.first_table_row.clone(), keys.first_table_row.clone());
    posted.push(set_filter.copy());

    set_filter.remove(&keys.first_table_row);
    set_filter.insert(keys.submit_selected_row.clone(), keys.submit_selected_row.clone());
    posted.push(set_filter);

    let one = "1".to_owned();
    proof {
        reveal_strlit("1");
        assert(one@ =~= seq!['1']);
    }
    search.insert(keys.ajax_events_count.clone(), one);
    search.insert(keys.submit_search.clone(), keys.submit_search.clone());
    (posted, search)
}

/// The form that opens row `num` of the client list: the search form without
/// its submit button and with a click on that row.
pub fn person_form(search_form: &Form, num: u32, submit_search: &String) -> (r: Form)
    requires
        search_form.wf(),
    ensures
        r.wf(),
        ({
            let key = "workspaceSubView:workspaceForm:workspacePageSubView:clientListTable:"@
                + decimal(num as int) + ":j_id_jsp_635818149_64pc51"@;
            r@ == search_form@.remove(submit_search@).insert(key, key)
        }),
{
    let mut form = search_form.copy();
    form.remove(submit_search);
    let key = person_row_key(num);
    form.insert(key.clone(), key);
    form
}

/// The forms of a full download, from the search form that the
/// organisation filter left: the search posted once, with the card
/// selector field (where the form has it) set to the plan's value; and the
/// form that asks for each further page, the same with the next-page field
/// set to `next` and `ajaxSingle` naming that field.
pub fn download_forms(filtered: &Form, plan: &DownloadPlan, cards_key: &String, next_page_key: &String) -> (r: (
    Form,
    Form,
))
    requires
        filtered.wf(),
    ensures
        r.0.wf(),
        r.1.wf(),
        r.0@ == with_existing(filtered@, cards_key@, plan.cards@),
        r.1@ == r.0@.insert(next_page_key@, "next"@).insert("ajaxSingle"@, next_page_key@),
{
    let mut search = filtered.copy();
    search.set_existing(cards_key, plan.cards.clone());
    let mut next = search.copy();
    next.insert(next_page_key.clone(), "next".to_owned());
    next.insert("ajaxSingle".to_owned(), next_page_key.clone());
    (search, next)
}

} // verus!
