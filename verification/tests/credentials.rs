use novadb_session::credentials::{delete, load, save, Credential};

fn credential(service: &str, username: &str, password: &str) -> Credential {
    Credential {
        service: service.to_string(),
        username: username.to_string(),
        password: password.to_string(),
    }
}

fn triples(credentials: &Vec<Credential>) -> Vec<(String, String, String)> {
    credentials
        .iter()
        .map(|c| (c.service.clone(), c.username.clone(), c.password.clone()))
        .collect()
}

fn triple(service: &str, username: &str, password: &str) -> (String, String, String) {
    (service.to_string(), username.to_string(), password.to_string())
}

#[test]
fn load_finds_the_password_of_the_user_at_the_service() {
    let list = vec![
        credential("mongo", "ann", "a1"),
        credential("mongo", "bob", "b1"),
        credential("redis", "ann", "a2"),
    ];
    assert_eq!(load(&list, "mongo", "bob"), Some("b1".to_string()));
    assert_eq!(load(&list, "redis", "ann"), Some("a2".to_string()));
    assert_eq!(load(&list, "mongo", "ann"), Some("a1".to_string()));
}

#[test]
fn load_of_an_unknown_user_is_none() {
    let list = vec![credential("mongo", "ann", "a1")];
    assert_eq!(load(&list, "mongo", "bob"), None);
    assert_eq!(load(&list, "redis", "ann"), None);
    assert_eq!(load(&Vec::new(), "mongo", "ann"), None);
}

#[test]
fn load_takes_the_first_of_several() {
    let list = vec![credential("mongo", "ann", "old"), credential("mongo", "ann", "new")];
    assert_eq!(load(&list, "mongo", "ann"), Some("old".to_string()));
}

#[test]
fn save_appends_a_new_credential() {
    let mut list = vec![credential("mongo", "ann", "a1")];
    save(&mut list, "mongo", "bob", "b1");
    assert_eq!(triples(&list), vec![triple("mongo", "ann", "a1"), triple("mongo", "bob", "b1")]);
    assert_eq!(load(&list, "mongo", "bob"), Some("b1".to_string()));
}

#[test]
fn save_replaces_the_credential_of_the_same_user() {
    let mut list = vec![
        credential("mongo", "ann", "a1"),
        credential("mongo", "bob", "b1"),
        credential("mongo", "ann", "a0"),
        credential("redis", "ann", "a2"),
    ];
    save(&mut list, "mongo", "ann", "fresh");
    assert_eq!(
        triples(&list),
        vec![triple("mongo", "bob", "b1"), triple("redis", "ann", "a2"), triple("mongo", "ann", "fresh")]
    );
    assert_eq!(load(&list, "mongo", "ann"), Some("fresh".to_string()));
}

#[test]
fn save_into_an_empty_list() {
    let mut list = Vec::new();
    save(&mut list, "s", "u", "");
    assert_eq!(triples(&list), vec![triple("s", "u", "")]);
}

#[test]
fn delete_removes_and_reports_the_change() {
    let mut list = vec![
        credential("mongo", "ann", "a1"),
        credential("mongo", "bob", "b1"),
        credential("mongo", "ann", "a0"),
    ];
    assert!(delete(&mut list, "mongo", "ann"));
    assert_eq!(triples(&list), vec![triple("mongo", "bob", "b1")]);
    assert!(!delete(&mut list, "mongo", "ann"));
    assert!(!delete(&mut list, "redis", "bob"));
    assert_eq!(triples(&list), vec![triple("mongo", "bob", "b1")]);
    assert!(delete(&mut list, "mongo", "bob"));
    assert!(list.is_empty());
    assert!(!delete(&mut list, "mongo", "bob"));
}
