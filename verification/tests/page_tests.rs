use backoffice_api::api::web_api::{
    any_next_arrow, button_table_dom, check_first_org, check_next_page, first_org_page_request,
    first_page_in_buttons,
    parse_clients_page, parse_org_page, ClientCollector, OrgCollector,
};
use backoffice_api::api::web_api::web_api as v2;
use backoffice_api::html::{element_or_first_inner_html, element_or_first_inner_text};

const ORG_TABLE: &str = "orgSelectSubView:modalOrgSelectorForm:modalOrgSelectorOrgTable:tb";
const ORG_BUTTONS: &str =
    "orgSelectSubView:modalOrgSelectorForm:modalOrgSelectorOrgTable:j_id_jsp_685543358_39pc22_table";
const CLIENT_TABLE: &str = "workspaceSubView:workspaceForm:workspacePageSubView:clientListTable";
const CLIENT_BUTTONS: &str =
    "workspaceSubView:workspaceForm:workspacePageSubView:clientListTable:j_id_jsp_635818149_104pc51_table";

fn org_page(active: &str, arrow: &str) -> String {
    format!(
        "<div><table><tbody id=\"{}\"><tr><td>12</td><td>School 5</td><td>Almaty</td></tr>\
         <tr><td>13</td><td>Lyceum</td><td>Astana</td></tr></tbody></table>\
         <table id=\"{}\"><tr><td class=\"dr-dscr-act rich-datascr-act\">{}</td>\
         <td><img src=\"/img/{}\"></td></tr></table></div>",
        ORG_TABLE, ORG_BUTTONS, active, arrow
    )
}

#[test]
fn element_lookup_by_id_and_fallback() {
    let html = "<p>first</p><span id=\"who\">ivanov</span>";
    assert_eq!(element_or_first_inner_text(html, "who").as_deref(), Some("ivanov"));
    assert_eq!(element_or_first_inner_text(html, "none").as_deref(), Some("first"));
    assert_eq!(
        element_or_first_inner_html("<div id=\"t\"><b>x</b></div>", "t").as_deref(),
        Some("<b>x</b>")
    );
    assert_eq!(element_or_first_inner_html("", "t"), None);
}

#[test]
fn button_table_is_the_inner_html_of_the_buttons() {
    let html = org_page("1", "right-arrow.png");
    let t = button_table_dom(&html).unwrap();
    assert!(t.contains("rich-datascr-act"));
    assert!(!t.contains(ORG_BUTTONS));
    assert_eq!(button_table_dom(&String::new()), None);
}

#[test]
fn next_page_follows_the_right_arrow() {
    assert_eq!(check_next_page(&org_page("1", "right-arrow.png")), Some(true));
    assert_eq!(check_next_page(&org_page("1", "left-arrow.png")), Some(false));
    assert_eq!(check_next_page(&String::new()), None);
}

#[test]
fn first_page_reads_one() {
    assert_eq!(check_first_org(&org_page("1", "x.png")), Some(true));
    assert_eq!(check_first_org(&org_page("2", "x.png")), Some(false));
    assert_eq!(check_first_org(&"<p>no buttons</p>".to_string()), None);
}

#[test]
fn organisations_of_a_page() {
    let orgs = parse_org_page(&org_page("1", "x.png")).unwrap();
    assert_eq!(orgs.len(), 2);
    assert_eq!(orgs[0].id, 12);
    assert_eq!(orgs[0].short_name, "School 5");
    assert_eq!(orgs[0].full_name, "School 5");
    assert_eq!(orgs[0].address, "Almaty");
    assert_eq!(orgs[1].id, 13);
    assert_eq!(orgs[1].address, "Astana");
}

#[test]
fn organisation_page_with_a_bad_id_is_refused() {
    let html = format!("<table><tbody id=\"{}\"><tr><td>x1</td><td>a</td><td>b</td></tr></tbody></table>", ORG_TABLE);
    assert!(parse_org_page(&html).is_none());
    let html = format!("<table><tbody id=\"{}\"><tr><td>1</td><td>a</td></tr></tbody></table>", ORG_TABLE);
    assert!(parse_org_page(&html).is_none());
    assert!(parse_org_page(&org_page("1", "x.png")).is_some());
}

fn client_row(id: &str, name: &str) -> String {
    format!(
        "<tr><td>n</td><td>{}</td><td>x</td><td>{}</td><td>5A</td><td>y</td><td>School 5</td><td>100,00</td></tr>",
        id, name
    )
}

fn client_page(with_buttons: bool, arrow: &str) -> String {
    let buttons = if with_buttons {
        format!("<table id=\"{}\"><tr><td><img src=\"{}\"></td></tr></table>", CLIENT_BUTTONS, arrow)
    } else {
        String::new()
    };
    format!(
        "<div>{}<table id=\"{}\"><tr><th>h1</th></tr><tr><th>h2</th></tr>{}{}{}</table></div>",
        buttons,
        CLIENT_TABLE,
        client_row("1001", "Иванов Иван Петрович"),
        client_row("1002", "Ким Ли"),
        client_row("1003", "Ахмет")
    )
}

#[test]
fn clients_of_a_page_without_buttons() {
    let (clients, next) = parse_clients_page(&client_page(false, "")).unwrap();
    assert!(!next);
    assert_eq!(clients.len(), 3);
    assert_eq!(clients[0].id, "1001");
    assert_eq!(clients[0].name, "Иванов Иван Петрович");
    assert_eq!(clients[0].group, "5A");
    assert_eq!(clients[0].org, "School 5");
    assert_eq!(clients[0].balance, "100,00");
    assert_eq!(clients[2].id, "1003");
}

#[test]
fn buttons_skip_a_row_and_tell_the_next_page() {
    let (clients, next) = parse_clients_page(&client_page(true, "/i/right-arrow.png")).unwrap();
    assert!(next);
    assert_eq!(clients.len(), 2);
    assert_eq!(clients[0].id, "1002");
    let (_, next) = parse_clients_page(&client_page(true, "/i/stop.png")).unwrap();
    assert!(!next);
}

#[test]
fn client_page_with_short_rows_is_refused() {
    let html = format!(
        "<table id=\"{}\"><tr><th>h1</th></tr><tr><th>h2</th></tr><tr><td>1</td></tr></table>",
        CLIENT_TABLE
    );
    assert!(parse_clients_page(&html).is_none());
    assert!(v2::parse_clients_page(&html).is_none());
    assert!(parse_clients_page(&client_page(false, "")).is_some());
}

#[test]
fn second_generation_clients_split_the_name() {
    let (clients, next) = v2::parse_clients_page(&client_page(false, "")).unwrap();
    assert!(!next);
    assert_eq!(clients.len(), 3);
    assert_eq!(clients[0].fullname.last_name, "Иванов");
    assert_eq!(clients[0].fullname.name, "Иван");
    assert_eq!(clients[0].fullname.surname, "Петрович");
    assert_eq!(clients[1].fullname.surname, "");
    assert_eq!(clients[2].fullname.name, "");
}

#[test]
fn organisations_are_gathered_page_by_page() {
    let first = org_page("1", "right-arrow.png");
    let mut c = OrgCollector::new(&first).unwrap();
    assert_eq!(c.orgs.len(), 2);
    assert_eq!(c.next_page, 2);
    assert_eq!(c.add_page(&org_page("2", "right-arrow.png")), Some(true));
    assert_eq!(c.next_page, 3);
    assert_eq!(c.add_page(&org_page("3", "none.png")), Some(false));
    assert_eq!(c.next_page, 3);
    assert_eq!(c.orgs.len(), 6);
    assert_eq!(c.orgs[5].id, 13);
    assert_eq!(c.add_page(&String::new()), None);
    assert_eq!(c.orgs.len(), 6);
    assert_eq!(c.next_page, 3);
    assert!(OrgCollector::new(&String::new()).is_none());
}

#[test]
fn clients_are_gathered_page_by_page() {
    let mut c = ClientCollector::new();
    assert_eq!(c.add_page(&client_page(true, "right-arrow.png")), Some(true));
    assert_eq!(c.add_page(&client_page(false, "")), Some(false));
    assert_eq!(c.clients.len(), 5);
    assert_eq!(c.clients[2].id, "1001");
    assert_eq!(c.add_page(&String::new()), None);
    assert_eq!(c.clients.len(), 5);
    let mut c2 = v2::ClientCollector::new();
    assert_eq!(c2.add_page(&client_page(false, "")), Some(false));
    assert_eq!(c2.clients.len(), 3);
}

#[test]
fn first_node_fallback_gives_its_inner_html() {
    assert_eq!(
        element_or_first_inner_html("<ul><li>a</li></ul><p>b</p>", "none").as_deref(),
        Some("<li>a</li>")
    );
}

#[test]
fn the_arrow_must_be_an_image() {
    let html = format!("<table id=\"{}\"><tr><td>right-arrow.png</td></tr></table>", ORG_BUTTONS);
    assert_eq!(check_next_page(&html), Some(false));
}

#[test]
fn arrows_and_page_numbers_read_from_plain_values() {
    let images = vec!["<img src=\"/a/left.png\">".to_string(), "<img src=\"/a/right-arrow.png\">".to_string()];
    assert!(any_next_arrow(&images));
    assert!(!any_next_arrow(&images[..1].to_vec()));
    assert!(!any_next_arrow(&Vec::new()));
    let buttons = "<tr><td class=\"dr-dscr-act rich-datascr-act\">1</td></tr>".to_string();
    assert_eq!(first_page_in_buttons(&buttons), Some(true));
    let buttons = "<tr><td class=\"dr-dscr-act rich-datascr-act\">4</td></tr>".to_string();
    assert_eq!(first_page_in_buttons(&buttons), Some(false));
    assert_eq!(first_page_in_buttons(&"<tr><td>1</td></tr>".to_string()), None);
}

#[test]
fn one_client_row_without_page_buttons() {
    let html = format!(
        "<table id=\"{}\"><tr><th>a</th></tr><tr><th>b</th></tr><tr><td>1</td><td>42</td><td>x</td>\
         <td>Иванов Иван</td><td>5А</td><td>x</td><td>Школа</td><td>100,00</td></tr></table>",
        CLIENT_TABLE
    );
    let (clients, next) = v2::parse_clients_page(&html).unwrap();
    assert!(!next);
    assert_eq!(clients.len(), 1);
    assert_eq!(clients[0].id, "42");
    assert_eq!(clients[0].fullname.last_name, "Иванов");
    assert_eq!(clients[0].fullname.name, "Иван");
    assert_eq!(clients[0].fullname.surname, "");
    assert_eq!(clients[0].group, "5А");
    assert_eq!(clients[0].org, "Школа");
    assert_eq!(clients[0].balance, "100,00");
}

#[test]
fn page_one_is_asked_for_unless_shown() {
    assert_eq!(first_org_page_request(&org_page("1", "x.png")), Some(None));
    assert_eq!(first_org_page_request(&org_page("3", "x.png")), Some(Some(1)));
    assert_eq!(first_org_page_request(&"<p>no buttons</p>".to_string()), None);
}
