use backoffice_api::api::web_api::web_api::{
    convert_to_id_and_fullname, download_forms, download_plan, get_fullname, org_filter_forms,
    person_form, FilterKeys, Form, FullDownloadQuery,
};

fn pairs(list: &[(&str, &str)]) -> Vec<(String, String)> {
    list.iter().map(|(k, v)| (k.to_string(), v.to_string())).collect()
}

fn sorted(form: &Form) -> Vec<(String, String)> {
    let mut fields = form.fields();
    fields.sort();
    fields
}

fn keys() -> FilterKeys {
    FilterKeys {
        submit_search: "submit".into(),
        open_org_search: "open".into(),
        org_filter_by_id: "byId".into(),
        org_modal_filter: "modal".into(),
        ajax_events_count: "events".into(),
        first_table_row: "row0".into(),
        submit_selected_row: "pick".into(),
    }
}

#[test]
fn form_fields_later_replace_earlier() {
    let form = Form::from_fields(&pairs(&[("a", "1"), ("b", "2"), ("a", "3")]));
    assert_eq!(sorted(&form), pairs(&[("a", "3"), ("b", "2")]));
}

#[test]
fn form_edits() {
    let mut form = Form::new();
    form.insert("a".into(), "1".into());
    form.insert("a".into(), "2".into());
    form.set_existing(&"b".to_string(), "9".into());
    assert_eq!(sorted(&form), pairs(&[("a", "2")]));
    form.set_existing(&"a".to_string(), "7".into());
    assert_eq!(sorted(&form), pairs(&[("a", "7")]));
    form.remove(&"a".to_string());
    form.remove(&"zz".to_string());
    assert!(form.fields().is_empty());
}

#[test]
fn organisation_filter_posts_four_forms() {
    let search = Form::from_fields(&pairs(&[("submit", "submit"), ("q", "x")]));
    let filter = Form::from_fields(&pairs(&[("byId", ""), ("modal", "m"), ("events", "3"), ("f", "y")]));
    let (posted, left) = org_filter_forms(&search, &filter, &"42".to_string(), &keys());
    assert_eq!(posted.len(), 4);
    assert_eq!(sorted(&posted[0]), pairs(&[("open", "open"), ("q", "x")]));
    assert_eq!(
        sorted(&posted[1]),
        pairs(&[("byId", "42"), ("events", "3"), ("f", "y"), ("modal", "m")])
    );
    assert_eq!(sorted(&posted[2]), pairs(&[("byId", "42"), ("f", "y"), ("row0", "row0")]));
    assert_eq!(sorted(&posted[3]), pairs(&[("byId", "42"), ("f", "y"), ("pick", "pick")]));
    assert_eq!(sorted(&left), pairs(&[("events", "1"), ("q", "x"), ("submit", "submit")]));
}

#[test]
fn organisation_filter_sets_only_an_existing_id_field() {
    let search = Form::new();
    let filter = Form::from_fields(&pairs(&[("f", "y")]));
    let (posted, _) = org_filter_forms(&search, &filter, &"42".to_string(), &keys());
    assert_eq!(sorted(&posted[1]), pairs(&[("f", "y")]));
}

#[test]
fn person_form_clicks_the_row() {
    let search = Form::from_fields(&pairs(&[("submit", "submit"), ("q", "x")]));
    let form = person_form(&search, 7, &"submit".to_string());
    let key = "workspaceSubView:workspaceForm:workspacePageSubView:clientListTable:7:j_id_jsp_635818149_64pc51";
    let mut expected = pairs(&[("q", "x"), (key, key)]);
    expected.sort();
    assert_eq!(sorted(&form), expected);
}

#[test]
fn padding_a_search_changes_nothing() {
    for s in ["12345", "Иванов Иван", "Ив* Пет", "", "-3"] {
        let padded = format!(" \t\u{3000}{}\n \u{a0}", s);
        let (id1, f1) = convert_to_id_and_fullname(s.to_string());
        let (id2, f2) = convert_to_id_and_fullname(padded);
        assert_eq!(id1, id2);
        assert_eq!((f1.last_name, f1.name, f1.surname), (f2.last_name, f2.name, f2.surname));
    }
}

#[test]
fn name_parts_join_back_to_the_words() {
    for s in ["", "Иванов", "  Иванов\tИван ", "Ким  Ли   Сун  Ок", "a b c"] {
        let f = get_fullname(s.to_string());
        let parts: Vec<&str> =
            [f.last_name.as_str(), f.name.as_str(), f.surname.as_str()].into_iter().filter(|p| !p.is_empty()).collect();
        assert_eq!(parts.join(" "), s.split_whitespace().collect::<Vec<_>>().join(" "));
        assert!(!f.last_name.contains(char::is_whitespace));
        assert!(!f.name.contains(char::is_whitespace));
    }
}

#[test]
fn download_forms_set_the_cards_and_the_next_page() {
    let plan = download_plan(&FullDownloadQuery { org_id: 858, cards: 2, show_deleted: false })
        .ok()
        .unwrap();
    let filtered = Form::from_fields(&pairs(&[("cards", "0"), ("q", "x")]));
    let (search, next) = download_forms(&filtered, &plan, &"cards".to_string(), &"np".to_string());
    assert_eq!(sorted(&search), pairs(&[("cards", "2"), ("q", "x")]));
    assert_eq!(
        sorted(&next),
        pairs(&[("ajaxSingle", "np"), ("cards", "2"), ("np", "next"), ("q", "x")])
    );
    let (search, _) = download_forms(&Form::new(), &plan, &"cards".to_string(), &"np".to_string());
    assert!(search.fields().is_empty());
}
