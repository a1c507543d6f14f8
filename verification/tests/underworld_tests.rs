use amadeus::amadeus_m::underworld::Underworld;

#[test]
fn links_are_trimmed_and_private_ones_skipped() {
    let links = Underworld::extract_links("veja [[ alma ]] e [[_rascunho]] e [[mito/eros]] [[ ]] [[fim");
    assert_eq!(links, vec!["alma", "mito/eros"]);
    assert!(Underworld::extract_links("sem links").is_empty());
}

#[test]
fn links_resolve_under_the_root() {
    let u = Underworld::new("uw");
    assert_eq!(u.resolve_link("mito/eros"), "uw/mito/eros");
    assert_eq!(u.resolve_link(" a / /b "), "uw/a/b");
    let r = Underworld::new("uw/");
    assert_eq!(r.resolve_link("x"), "uw/x");
}

#[test]
fn search_ranks_by_keyword_hits() {
    let u = Underworld::new("uw");
    let files = vec![
        ("a.md".to_string(), "O Amor e a alma".to_string()),
        ("b.md".to_string(), "nada aqui".to_string()),
        ("c.md".to_string(), "amor, alma e mito".to_string()),
        ("d.md".to_string(), "apenas MITO".to_string()),
    ];
    let found = u.search(&files, &["amor", "mito", "al"]);
    // "al" is shorter than three characters and never counts
    assert_eq!(found, vec!["c.md", "a.md", "d.md"]);
    assert!(u.search(&files, &["xyz"]).is_empty());
}

#[test]
fn steps_log_the_notes_read() {
    let mut u = Underworld::new("uw");
    let r = u.step(Some("alma"), Some("ver [[eros]]".to_string())).unwrap();
    assert_eq!(r.0, "ver [[eros]]");
    assert_eq!(r.1, vec!["eros"]);
    assert_eq!(r.2, "alma");
    assert!(u.step(Some("x"), None).is_none());
    let r2 = u.step(None, Some(String::new())).unwrap();
    assert_eq!(r2.2, "desconhecido");
    assert_eq!(u.visit_log(), &["alma".to_string(), "desconhecido".to_string()]);
}

#[test]
fn random_pick_is_one_of_the_paths() {
    assert!(Underworld::pick_random(&[]).is_none());
    let paths = vec!["a.md".to_string(), "b.md".to_string()];
    for _ in 0..20 {
        let p = Underworld::pick_random(&paths).unwrap();
        assert!(paths.contains(&p));
    }
    assert_eq!(Underworld::pick_random(&["só".to_string()]), Some("só".to_string()));
}
