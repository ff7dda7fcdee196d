use strings_to_and_fro::models::AndroidStringsEntry;
use strings_to_and_fro::reader::{next_entry, reader_step, ReadStep, StreamProducer, XmlEvent};
use strings_to_and_fro::resolver::{
    as_configuration_or_none, has_values_prefix, resolve_res_dir, str_le, CandidateDir,
};
use strings_to_and_fro::warnings::is_valid_key;
use strings_to_and_fro::writer::render_csv_line;

fn candidate(name: &str, strings_path: Option<&str>) -> CandidateDir {
    CandidateDir { name: name.to_string(), strings_path: strings_path.map(|p| p.to_string()) }
}

#[test]
fn resolver_filters_and_sorts() {
    let candidates = vec![
        candidate("values-fr", Some("res/values-fr/strings.xml")),
        candidate("drawable", Some("res/drawable/strings.xml")),
        candidate("values-de", None),
        candidate("values", Some("res/values/strings.xml")),
    ];
    let configurations = resolve_res_dir(candidates);
    let names: Vec<&str> = configurations.iter().map(|c| c.name.as_str()).collect();
    assert_eq!(names, vec!["values", "values-fr"]);
    assert_eq!(configurations[0].strings_path, "res/values/strings.xml");
    assert_eq!(configurations[1].strings_path, "res/values-fr/strings.xml");
}

#[test]
fn resolver_empty_when_nothing_qualifies() {
    let candidates = vec![
        candidate("drawable", Some("res/drawable/strings.xml")),
        candidate("layout", None),
    ];
    let configurations = resolve_res_dir(candidates);
    assert!(configurations.is_empty());
}

#[test]
fn base_variant_qualifies() {
    let c = as_configuration_or_none(candidate("values", Some("res/values/strings.xml")));
    let c = c.expect("the unprefixed base variant is itself a valid configuration");
    assert_eq!(c.name, "values");
}

#[test]
fn prefix_check() {
    assert!(has_values_prefix("values"));
    assert!(has_values_prefix("values-fr"));
    assert!(!has_values_prefix("value"));
    assert!(!has_values_prefix("drawable"));
    assert!(!has_values_prefix(""));
}

#[test]
fn name_order() {
    assert!(str_le("values", "values"));
    assert!(str_le("values", "values-fr"));
    assert!(!str_le("values-fr", "values"));
    assert!(str_le("values-de", "values-fr"));
}

#[test]
fn key_name_character_set() {
    assert!(is_valid_key("hello_world_42"));
    assert!(is_valid_key(""));
    assert!(!is_valid_key("my-key"));
    assert!(!is_valid_key("key name"));
}

#[test]
fn reader_scans_entries_in_order() {
    let events = vec![
        XmlEvent::OtherStart,
        XmlEvent::StringStart { key: "a".to_string() },
        XmlEvent::Text { value: "x".to_string() },
        XmlEvent::StringStart { key: "b".to_string() },
        XmlEvent::Other,
        XmlEvent::Text { value: "y".to_string() },
        XmlEvent::Eof,
    ];
    let (e1, pos1) = next_entry(&events, 0).expect("first record");
    assert_eq!(e1.key, "a");
    assert_eq!(e1.value, "x");
    let (e2, pos2) = next_entry(&events, pos1).expect("second record");
    assert_eq!(e2.key, "b");
    assert_eq!(e2.value, "y");
    assert!(next_entry(&events, pos2).is_none());
}

#[test]
fn reader_ignores_text_without_key() {
    let events = vec![
        XmlEvent::Text { value: "stray".to_string() },
        XmlEvent::Eof,
    ];
    assert!(next_entry(&events, 0).is_none());
}

#[test]
fn reader_step_decisions() {
    assert!(matches!(reader_step(None, XmlEvent::Eof), ReadStep::End));
    assert!(matches!(
        reader_step(None, XmlEvent::StringStart { key: "k".to_string() }),
        ReadStep::Continue(Some(k)) if k == "k"
    ));
    assert!(matches!(
        reader_step(None, XmlEvent::Text { value: "v".to_string() }),
        ReadStep::Continue(None)
    ));
    match reader_step(Some("k".to_string()), XmlEvent::Text { value: "v".to_string() }) {
        ReadStep::Produced(AndroidStringsEntry { key, value }) => {
            assert_eq!(key, "k");
            assert_eq!(value, "v");
        }
        other => panic!("unexpected step {:?}", step_name(&other)),
    }
}

fn step_name(s: &ReadStep) -> &'static str {
    match s {
        ReadStep::Continue(_) => "continue",
        ReadStep::Produced(_) => "produced",
        ReadStep::End => "end",
    }
}

#[test]
fn producer_is_lazy_finite_and_releasable() {
    let entries = vec![
        AndroidStringsEntry { key: "a".to_string(), value: "1".to_string() },
        AndroidStringsEntry { key: "b".to_string(), value: "2".to_string() },
    ];
    let mut p = StreamProducer::new(entries);
    let first = p.next().expect("first");
    assert_eq!(first.key, "a");
    let second = p.next().expect("second");
    assert_eq!(second.key, "b");
    assert!(p.next().is_none());
    assert!(p.next().is_none());
    p.clear();
}

#[test]
fn csv_line_rendering() {
    let items = vec!["Hello".to_string(), "Bon, jour".to_string()];
    let line = render_csv_line(&"A".to_string(), &items, true);
    assert_eq!(line, "A, \"Hello\", \"Bon, jour\"");
    let header = render_csv_line(&"key".to_string(), &vec!["values".to_string()], false);
    assert_eq!(header, "key, values");
    let bare = render_csv_line(&"A".to_string(), &Vec::new(), true);
    assert_eq!(bare, "A");
}
