use jari::radio::{
    known_ids, lowest_free_id, order_ids, upload_extension, Config, PageError, PartialConfig,
    SentConfig, Token,
};

#[test]
fn lowest_free_id_reuses_gaps() {
    assert_eq!(lowest_free_id(&vec![]), Some(0));
    assert_eq!(lowest_free_id(&vec![0, 1, 3]), Some(2));
    assert_eq!(lowest_free_id(&vec![3, 0, 1]), Some(2));
    let all: Vec<u8> = (0..=255).collect();
    assert_eq!(lowest_free_id(&all), None);
}

#[test]
fn extension_is_text_from_last_dot() {
    assert_eq!(upload_extension("song.live.mp3"), Some(".mp3".to_string()));
    assert_eq!(upload_extension("song"), None);
    assert_eq!(upload_extension("x."), Some(".".to_string()));
}

#[test]
fn order_maps_names_to_ids() {
    let songs = vec![("a".to_string(), 3u8), ("b".to_string(), 1u8)];
    let order = vec!["b".to_string(), "a".to_string()];
    assert_eq!(order_ids(&order, &songs), Some(vec![1, 3]));
    let bad = vec!["b".to_string(), "c".to_string()];
    assert_eq!(order_ids(&bad, &songs), None);
    assert_eq!(known_ids(&bad, &songs), vec![1]);
}

#[test]
fn config_is_sanitised() {
    let sent = SentConfig { title: "XSS<script>attack</script>".to_string(), description: "<b>hi</b>".to_string() };
    let mut c = Config::from_sent(&sent);
    assert_eq!(c.title(), "XSS");
    assert_eq!(c.description(), "<b>hi</b>");
    c.apply(&PartialConfig { title: Some("<img src=x onerror=alert(1)>T".to_string()), description: None });
    assert_eq!(c.title(), "<img src=\"x\">T");
    assert_eq!(c.description(), "<b>hi</b>");
    assert_eq!(c.to_sent().title, "<img src=\"x\">T");
}

#[test]
fn page_errors_map_to_status_codes() {
    assert_eq!(PageError::NotFound.status_code(), 404);
    assert_eq!(PageError::InternalError.status_code(), 500);
    assert_eq!(PageError::MultipartError.status_code(), 400);
    assert_eq!(PageError::ResourceNotFound.status_code(), 400);
    assert_eq!(PageError::UnsupportedFileType.status_code(), 400);
    assert_eq!(PageError::AuthError.status_code(), 400);
    assert_eq!(PageError::NotFound.message(), "Couldn't find Page");
}

#[test]
fn token_hands_back_its_value() {
    assert_eq!(Token(Some("t".to_string())).into_inner(), Some("t".to_string()));
    assert_eq!(Token(None).into_inner(), None);
}
