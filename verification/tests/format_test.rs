use yew::format::yaml::Yaml;
use yew::format::{FormatError, Json, Nothing};

#[test]
fn nothing_is_stored_and_nothing_restored() {
    assert!(matches!(Nothing.into_text(), Err(FormatError::Nothing)));
    assert!(matches!(Nothing.into_binary(), Err(FormatError::Nothing)));
    let _: Nothing = Nothing::from_text(Ok("anything".to_string()));
    let _: Nothing = Nothing::from_binary(Err(FormatError::Nothing));
}

#[test]
fn json_stores_and_restores() {
    let data: Vec<u32> = vec![1, 2, 3];
    let text = Json(&data).into_text();
    assert_eq!(text.as_ref().ok(), Some(&"[1,2,3]".to_string()));
    let Json(back): Json<Result<Vec<u32>, FormatError>> = Json::from_text(text);
    assert_eq!(back.ok(), Some(vec![1, 2, 3]));

    let binary = Json(&data).into_binary();
    assert_eq!(binary.as_ref().ok(), Some(&b"[1,2,3]".to_vec()));
    let Json(back): Json<Result<Vec<u32>, FormatError>> = Json::from_binary(binary);
    assert_eq!(back.ok(), Some(vec![1, 2, 3]));
}

#[test]
fn json_hands_errors_on_and_reports_its_own() {
    let Json(back): Json<Result<u32, FormatError>> = Json::from_text(Err(FormatError::Nothing));
    assert!(matches!(back, Err(FormatError::Nothing)));
    let Json(back): Json<Result<u32, FormatError>> = Json::from_binary(Nothing.into_binary());
    assert!(matches!(back, Err(FormatError::Nothing)));

    let Json(back): Json<Result<u32, FormatError>> = Json::from_text(Ok("not a number".to_string()));
    assert!(matches!(back, Err(FormatError::Json(_))));
    let Json(back): Json<Result<u32, FormatError>> = Json::from_binary(Ok(vec![b'{']));
    assert!(matches!(back, Err(FormatError::Json(_))));
}

#[test]
fn yaml_stores_and_restores() {
    let data: Vec<u32> = vec![4, 5];
    let text = Yaml(&data).into_text();
    assert_eq!(text.as_ref().ok(), Some(&"- 4\n- 5\n".to_string()));
    let Yaml(back): Yaml<Result<Vec<u32>, FormatError>> = Yaml::from_text(text);
    assert_eq!(back.ok(), Some(vec![4, 5]));

    let binary = Yaml(&data).into_binary();
    assert_eq!(binary.as_ref().ok(), Some(&b"- 4\n- 5\n".to_vec()));
    let Yaml(back): Yaml<Result<Vec<u32>, FormatError>> = Yaml::from_binary(binary);
    assert_eq!(back.ok(), Some(vec![4, 5]));
}

#[test]
fn yaml_hands_errors_on_and_reports_its_own() {
    let Yaml(back): Yaml<Result<u32, FormatError>> = Yaml::from_text(Err(FormatError::Nothing));
    assert!(matches!(back, Err(FormatError::Nothing)));
    let Yaml(back): Yaml<Result<u32, FormatError>> = Yaml::from_text(Ok("[".to_string()));
    assert!(matches!(back, Err(FormatError::Yaml(_))));
    let Yaml(back): Yaml<Result<u32, FormatError>> = Yaml::from_binary(Ok(b"- x".to_vec()));
    assert!(matches!(back, Err(FormatError::Yaml(_))));
}

#[test]
fn a_yaml_binary_holds_the_bytes_of_the_yaml_text() {
    let data: Vec<String> = vec!["gr\u{fc}n".to_string(), "bl\u{e5}".to_string()];
    let text = Yaml(&data).into_text().ok().unwrap();
    let binary = Yaml(&data).into_binary().ok().unwrap();
    assert_eq!(binary, text.clone().into_bytes());
    assert!(binary.len() > text.chars().count());
}
