use eslint_builtin::conf::globals::Visibility;

#[test]
fn test_deserialize_visibility() {
    [
        (r#""off""#, Visibility::Off),
        (r#"true"#, Visibility::Writable),
        (r#""true""#, Visibility::Writable),
        (r#"false"#, Visibility::Readonly),
        (r#""false""#, Visibility::Readonly),
        (r#"null"#, Visibility::Readonly),
        (r#""writeable""#, Visibility::Writable),
        (r#""writable""#, Visibility::Writable),
        (r#""readable""#, Visibility::Readonly),
        (r#""readonly""#, Visibility::Readonly),
        (r#""writable""#, Visibility::Writable),
    ]
    .into_iter()
    .for_each(|(input, output)| {
        let deserialized = Visibility::from_json(input).unwrap();
        assert_eq!(deserialized, output);
    });

    let deserialized = Visibility::from_json("something else");
    assert!(deserialized.is_none());
}

#[test]
fn visibility_from_plain_values() {
    assert_eq!(Visibility::from_bool(true), Visibility::Writable);
    assert_eq!(Visibility::from_bool(false), Visibility::Readonly);
    assert_eq!(Visibility::from_unit(), Visibility::Readonly);
    assert_eq!(Visibility::from_str_value("off"), Some(Visibility::Off));
    assert_eq!(Visibility::from_str_value("Readonly"), None);
}

#[test]
fn visibility_json_that_names_none() {
    assert_eq!(Visibility::from_json("1"), None);
    assert_eq!(Visibility::from_json("[]"), None);
    assert_eq!(Visibility::from_json(r#""maybe""#), None);
    assert_eq!(Visibility::from_json(""), None);
}

use eslint_builtin::conf::globals::{builtin, commonjs, es2015, es2017, es2020, es2021, es3, es5, Globals};

#[test]
fn global_tables() {
    let c = commonjs();
    assert_eq!(c.get("exports"), Some(Visibility::Writable));
    assert_eq!(c.get("require"), Some(Visibility::Readonly));
    assert_eq!(c.get("Array"), None);
    assert_eq!(es3().get("Array"), Some(Visibility::Readonly));
    assert_eq!(es3().get("JSON"), None);
    assert_eq!(es5().get("JSON"), Some(Visibility::Readonly));
    assert_eq!(es2015().get("Promise"), Some(Visibility::Readonly));
    assert_eq!(es2017().get("Atomics"), Some(Visibility::Readonly));
    assert_eq!(es2020().get("globalThis"), Some(Visibility::Readonly));
    assert_eq!(es2021().get("WeakRef"), Some(Visibility::Readonly));
    assert_eq!(builtin().entries.len(), 66);
}

#[test]
fn extending_globals_keeps_and_overrides() {
    let g = Globals { entries: vec![("a".to_owned(), Visibility::Readonly), ("b".to_owned(), Visibility::Readonly)] };
    let g = g.and_extend(vec![("a".to_owned(), Visibility::Writable), ("c".to_owned(), Visibility::Off)]);
    assert_eq!(g.get("a"), Some(Visibility::Writable));
    assert_eq!(g.get("b"), Some(Visibility::Readonly));
    assert_eq!(g.get("c"), Some(Visibility::Off));
    assert_eq!(g.get("d"), None);
}

#[test]
fn every_edition_keeps_the_one_before() {
    let editions = [es3(), es5(), es2015(), es2017(), es2020(), es2021()];
    for pair in editions.windows(2) {
        for (name, _) in &pair[0].entries {
            assert!(pair[1].get(name).is_some(), "{name}");
        }
    }
}
