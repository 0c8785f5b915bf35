use fw::codec::decode;
use fw::codec::encode;
use fw::config::Config;
use fw::config::Project;
use fw::config::Settings;
use fw::config::Tag;
use fw::errors::AppError;

fn sample() -> Config {
    Config {
        projects: vec![(
            "api".to_string(),
            Project {
                name: "api".to_string(),
                git: "git@github.com:x/api.git".to_string(),
                after_clone: None,
                after_workon: Some("nix-shell".to_string()),
                tags: vec!["backend".to_string()],
            },
        )],
        settings: Settings {
            workspace: "~/workspace".to_string(),
            tags: Some(vec![(
                "backend".to_string(),
                Tag {
                    after_clone: None,
                    after_workon: None,
                    priority: Some(1),
                    workspace: None,
                },
            )]),
        },
    }
}

#[test]
fn encode_produces_the_canonical_document() {
    let text = encode(&sample());
    let expected = "{\n  \"projects\": {\n    \"api\": {\n      \"name\": \"api\",\n      \"git\": \"git@github.com:x/api.git\",\n      \"after_clone\": null,\n      \"after_workon\": \"nix-shell\",\n      \"tags\": [\n        \"backend\"\n      ]\n    }\n  },\n  \"settings\": {\n    \"workspace\": \"~/workspace\",\n    \"tags\": {\n      \"backend\": {\n        \"after_clone\": null,\n        \"after_workon\": null,\n        \"priority\": 1,\n        \"workspace\": null\n      }\n    }\n  }\n}";
    assert_eq!(text, expected);
}

#[test]
fn decode_inverts_encode() {
    let r = sample();
    let back = decode(&encode(&r)).unwrap();
    assert_eq!(back, r);
}

#[test]
fn round_trip_keeps_escaped_characters() {
    let r = Config {
        projects: vec![(
            "tricky \"name\"\n".to_string(),
            Project {
                name: "tricky \"name\"\n".to_string(),
                git: "path\\with\\backslashes".to_string(),
                after_clone: Some("echo \u{1}\u{1f}\t".to_string()),
                after_workon: None,
                tags: vec![],
            },
        )],
        settings: Settings { workspace: "".to_string(), tags: None },
    };
    let back = decode(&encode(&r)).unwrap();
    assert_eq!(back, r);
}

#[test]
fn round_trip_keeps_empty_registry() {
    let r = Config {
        projects: vec![],
        settings: Settings { workspace: "~/w".to_string(), tags: None },
    };
    let text = encode(&r);
    assert_eq!(
        text,
        "{\n  \"projects\": {},\n  \"settings\": {\n    \"workspace\": \"~/w\",\n    \"tags\": null\n  }\n}"
    );
    assert_eq!(decode(&text).unwrap(), r);
}

#[test]
fn round_trip_keeps_empty_catalog_and_priorities() {
    let r = Config {
        projects: vec![],
        settings: Settings {
            workspace: "w".to_string(),
            tags: Some(vec![
                (
                    "a".to_string(),
                    Tag {
                        after_clone: Some("ac".to_string()),
                        after_workon: Some("aw".to_string()),
                        priority: Some(0),
                        workspace: Some("ws".to_string()),
                    },
                ),
                (
                    "b".to_string(),
                    Tag { after_clone: None, after_workon: None, priority: Some(42), workspace: None },
                ),
                (
                    "c".to_string(),
                    Tag { after_clone: None, after_workon: None, priority: Some(255), workspace: None },
                ),
            ]),
        },
    };
    assert_eq!(decode(&encode(&r)).unwrap(), r);
    let empty_cat = Config {
        projects: vec![],
        settings: Settings { workspace: "w".to_string(), tags: Some(vec![]) },
    };
    assert_eq!(decode(&encode(&empty_cat)).unwrap(), empty_cat);
}

#[test]
fn decode_rejects_malformed_documents() {
    assert!(matches!(decode("not json at all"), Err(AppError::BadJson(_))));
    assert!(matches!(decode(""), Err(AppError::BadJson(_))));
    assert!(matches!(decode("{}"), Err(AppError::BadJson(_))));
    // a wrong field name does not match the expected shape
    let bad = "{\n  \"projects\": {},\n  \"settings\": {\n    \"workspase\": \"w\",\n    \"tags\": null\n  }\n}";
    assert!(matches!(decode(bad), Err(AppError::BadJson(_))));
    // trailing text after a valid document
    let mut good = String::from(
        "{\n  \"projects\": {},\n  \"settings\": {\n    \"workspace\": \"w\",\n    \"tags\": null\n  }\n}",
    );
    good.push('x');
    assert!(matches!(decode(&good), Err(AppError::BadJson(_))));
    // a priority above the byte range is rejected
    let big = "{\n  \"projects\": {},\n  \"settings\": {\n    \"workspace\": \"w\",\n    \"tags\": {\n      \"a\": {\n        \"after_clone\": null,\n        \"after_workon\": null,\n        \"priority\": 256,\n        \"workspace\": null\n      }\n    }\n  }\n}";
    assert!(matches!(decode(big), Err(AppError::BadJson(_))));
}

#[test]
fn decode_then_operate_then_encode() {
    let r = sample();
    let text = encode(&r);
    let loaded = decode(&text);
    let out = fw::tag::delete_tag(loaded, "backend").unwrap();
    assert!(out.projects[0].1.tags.is_empty());
    let text2 = encode(&out);
    let back = decode(&text2).unwrap();
    assert_eq!(back, out);
}

#[test]
fn decode_tolerates_whitespace_field_order_and_unsorted_keys() {
    // one-line document, reordered fields, keys out of order, absent optional fields
    let doc = "{\"settings\": {\"workspace\": \"w\"}, \"projects\": {\"b\": {\"git\": \"g2\", \"name\": \"b\"}, \"a\": {\"name\": \"a\", \"git\": \"g1\", \"tags\": [\"z\", \"x\"]}}}";
    let c = decode(doc).unwrap();
    assert_eq!(c.settings.workspace, "w");
    assert_eq!(c.settings.tags, None);
    assert_eq!(c.projects.len(), 2);
    assert_eq!(c.projects[0].0, "a");
    assert_eq!(c.projects[0].1.after_clone, None);
    assert_eq!(c.projects[0].1.tags, vec!["x".to_string(), "z".to_string()]);
    assert_eq!(c.projects[1].0, "b");
    assert!(c.projects[1].1.tags.is_empty());
}

#[test]
fn decode_accepts_general_escapes() {
    let doc = "{\"projects\": {}, \"settings\": {\"workspace\": \"a\\n\\t\\u0041\\\"\", \"tags\": null}}";
    let c = decode(doc).unwrap();
    assert_eq!(c.settings.workspace, "a\n\tA\"");
}
