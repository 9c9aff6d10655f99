use backoffice_api::api::web_api::web_api::{
    convert_to_id_and_fullname, download_plan, get_fullname, person_row_key, search_plan, Cards,
    FullDownloadQuery, SearchQuery,
};
use backoffice_api::api::web_api::{search_fields, SearchQuery as SearchQueryV1};

fn parts(search: &str) -> (i32, String, String, String) {
    let (id, f) = convert_to_id_and_fullname(search.to_string());
    (id, f.last_name, f.name, f.surname)
}

#[test]
fn search_by_id() {
    assert_eq!(parts("  12345 "), (12345, "".into(), "".into(), "".into()));
    assert_eq!(parts("-7"), (-7, "".into(), "".into(), "".into()));
}

#[test]
fn search_by_name() {
    assert_eq!(parts("Иванов"), (0, "Иванов".into(), "".into(), "".into()));
    assert_eq!(parts(" Иванов  Иван "), (0, "Иванов".into(), "Иван".into(), "".into()));
    assert_eq!(
        parts("Иванов Иван Петрович Лишний"),
        (0, "Иванов".into(), "Иван".into(), "Петрович".into())
    );
}

#[test]
fn search_wildcards_leave_parts_empty() {
    assert_eq!(parts("Ив*"), (0, "Ив*".into(), "".into(), "".into()));
    assert_eq!(parts("* Иван"), (0, "".into(), "Иван".into(), "".into()));
    assert_eq!(parts("Иванов * Пет*"), (0, "Иванов".into(), "".into(), "".into()));
}

#[test]
fn search_of_nothing_or_zero() {
    assert_eq!(parts("   "), (0, "".into(), "".into(), "".into()));
    assert_eq!(parts("0"), (0, "0".into(), "".into(), "".into()));
    assert_eq!(parts("99999999999"), (0, "99999999999".into(), "".into(), "".into()));
}

fn fullname(s: &str) -> (String, String, String) {
    let f = get_fullname(s.to_string());
    (f.last_name, f.name, f.surname)
}

#[test]
fn fullname_parts() {
    assert_eq!(fullname(""), ("".into(), "".into(), "".into()));
    assert_eq!(fullname("Иванов"), ("Иванов".into(), "".into(), "".into()));
    assert_eq!(fullname(" Иванов\tИван "), ("Иванов".into(), "Иван".into(), "".into()));
    assert_eq!(
        fullname("Иванов Иван Петрович"),
        ("Иванов".into(), "Иван".into(), "Петрович".into())
    );
    assert_eq!(
        fullname("Ким  Ли   Сун  Ок"),
        ("Ким".into(), "Ли".into(), "Сун Ок".into())
    );
}

#[test]
fn fullname_keeps_every_word() {
    let input = "  Ахмет  Бек   Улы  Кызы ";
    let f = get_fullname(input.to_string());
    let joined = format!("{} {} {}", f.last_name, f.name, f.surname);
    assert_eq!(
        joined.split_whitespace().collect::<Vec<_>>(),
        input.split_whitespace().collect::<Vec<_>>()
    );
}

#[test]
fn card_selector_values() {
    assert_eq!(Cards::NoSelected.value(), "0");
    assert_eq!(Cards::WithCards.value(), "1");
    assert_eq!(Cards::NoCards.value(), "2");
}

#[test]
fn search_fields_of_an_id_search() {
    let q = SearchQueryV1 { search: " 42 ".into(), school_id: 3, deleted: true };
    let f = search_fields(&q);
    assert_eq!(f.id, "42");
    assert_eq!((f.last_name.as_str(), f.name.as_str(), f.surname.as_str()), ("", "", ""));
    assert_eq!(f.show_deleted, "on");
}

#[test]
fn search_fields_of_a_name_search() {
    let q = SearchQueryV1 { search: "Иванов Иван".into(), school_id: 0, deleted: false };
    let f = search_fields(&q);
    assert_eq!(f.id, "");
    assert_eq!((f.last_name.as_str(), f.name.as_str(), f.surname.as_str()), ("Иванов", "Иван", ""));
    assert_eq!(f.show_deleted, "");
}

#[test]
fn search_plan_by_id_touches_only_the_id() {
    let q = SearchQuery { search: "17".into(), org_id: 5, show_deleted: true };
    let p = search_plan(&q);
    assert_eq!(p.id.as_deref(), Some("17"));
    assert!(p.org_filter.is_none() && p.show_deleted.is_none() && p.names.is_none());
}

#[test]
fn search_plan_by_name() {
    let q = SearchQuery { search: "Иванов".into(), org_id: 879, show_deleted: false };
    let p = search_plan(&q);
    assert!(p.id.is_none());
    assert_eq!(p.org_filter.as_deref(), Some("879"));
    assert_eq!(p.show_deleted, Some(false));
    assert_eq!(p.names.unwrap().last_name, "Иванов");
    let q = SearchQuery { search: "Иванов".into(), org_id: 0, show_deleted: true };
    let p = search_plan(&q);
    assert!(p.org_filter.is_none());
    assert_eq!(p.show_deleted, Some(true));
}

#[test]
fn download_plan_needs_an_organisation() {
    let q = FullDownloadQuery { org_id: 0, cards: 1, show_deleted: false };
    assert_eq!(download_plan(&q).err().unwrap(), "Не выбрана организация");
    let q = FullDownloadQuery { org_id: 858, cards: 2, show_deleted: false };
    let p = download_plan(&q).ok().unwrap();
    assert_eq!((p.org_id.as_str(), p.cards.as_str()), ("858", "2"));
}

#[test]
fn person_row_key_names_the_row() {
    assert_eq!(
        person_row_key(7),
        "workspaceSubView:workspaceForm:workspacePageSubView:clientListTable:7:j_id_jsp_635818149_64pc51"
    );
}

#[test]
fn a_printed_id_is_found_again() {
    for n in [1, -1, 42, i32::MAX, i32::MIN] {
        let printed = backoffice_api::text::decimal_i32(n);
        assert_eq!(convert_to_id_and_fullname(printed).0, n);
    }
}

#[test]
fn first_generation_path_reaches_the_same_parsing() {
    let (id, f) = backoffice_api::api::web_api::convert_to_id_and_fullname("Ли Бо".to_string());
    assert_eq!((id, f.last_name.as_str(), f.name.as_str()), (0, "Ли", "Бо"));
}
