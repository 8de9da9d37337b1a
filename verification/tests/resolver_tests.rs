use catacraft::records::{Field, FieldValue, Record};
use catacraft::resolver::{merge, reads, RecordStore, ResolveError};

fn s(x: &str) -> String {
    x.to_string()
}

fn text(value: &str) -> FieldValue {
    FieldValue::Text(s(value))
}

fn record(fields: &[(&str, FieldValue)]) -> Record {
    Record {
        fields: fields.iter().map(|(k, v)| Field { key: s(k), value: v.clone() }).collect(),
    }
}

fn keys(r: &Record) -> Vec<String> {
    let mut v: Vec<String> = r.fields.iter().map(|f| f.key.clone()).collect();
    v.sort();
    v
}

fn tool_store() -> RecordStore {
    RecordStore {
        records: vec![
            record(&[
                ("abstract", text("base_tool")),
                ("weight", text("500 g")),
                ("volume", text("250 ml")),
            ]),
            record(&[
                ("type", text("TOOL")),
                ("id", text("hammer")),
                ("copy-from", text("base_tool")),
                ("name", text("hammer")),
            ]),
        ],
    }
}

#[test]
fn child_is_merged_onto_its_template() {
    let store = tool_store();
    let hammer = store.resolve(&store.records[1]).unwrap();
    assert_eq!(hammer.get("type"), Some(&text("TOOL")));
    assert_eq!(hammer.get("id"), Some(&text("hammer")));
    assert_eq!(hammer.get("name"), Some(&text("hammer")));
    assert_eq!(hammer.get("weight"), Some(&text("500 g")));
    assert_eq!(hammer.get("volume"), Some(&text("250 ml")));
    assert_eq!(hammer.get("abstract"), None);
    assert_eq!(hammer.get("copy-from"), None);
    assert_eq!(keys(&hammer), vec!["id", "name", "type", "volume", "weight"]);
}

#[test]
fn record_without_base_is_unchanged() {
    let store = tool_store();
    let base = store.resolve(&store.records[0]).unwrap();
    assert_eq!(base, store.records[0]);
    let lone = record(&[("type", text("TOOL")), ("id", text("saw")), ("weight", FieldValue::Integer(3))]);
    assert_eq!(store.resolve(&lone), Ok(lone.clone()));
    let odd = record(&[("id", FieldValue::Integer(3))]);
    assert_eq!(store.resolve(&odd), Ok(odd.clone()));
}

#[test]
fn own_fields_override_the_base() {
    let store = RecordStore {
        records: vec![
            record(&[
                ("type", text("TOOL")),
                ("id", text("saw")),
                ("weight", text("1 kg")),
                ("flags", FieldValue::Other(serde_json::Value::Array(vec![serde_json::Value::Bool(true)]))),
                ("nested", FieldValue::Other(serde_json::Value::Null)),
            ]),
            record(&[
                ("type", text("TOOL")),
                ("id", text("big_saw")),
                ("copy-from", text("saw")),
                ("weight", text("2 kg")),
                ("nested", FieldValue::Integer(7)),
            ]),
        ],
    };
    let out = store.resolve(&store.records[1]).unwrap();
    assert_eq!(out.get("weight"), Some(&text("2 kg")));
    assert_eq!(out.get("id"), Some(&text("big_saw")));
    assert_eq!(out.get("copy-from"), None);
    assert_eq!(out.get("nested"), Some(&FieldValue::Integer(7)));
    assert_eq!(
        out.get("flags"),
        Some(&FieldValue::Other(serde_json::Value::Array(vec![serde_json::Value::Bool(true)])))
    );
    assert_eq!(keys(&out), vec!["flags", "id", "nested", "type", "weight"]);
}

#[test]
fn base_metadata_is_stripped() {
    let store = RecordStore {
        records: vec![
            record(&[("abstract", text("root")), ("color", text("red"))]),
            record(&[
                ("type", text("TOOL")),
                ("abstract", text("middle")),
                ("copy-from", text("root")),
                ("size", text("big")),
            ]),
            record(&[("type", text("TOOL")), ("copy-from", text("middle")), ("name", text("leaf"))]),
        ],
    };
    let leaf = store.resolve(&store.records[2]).unwrap();
    assert_eq!(leaf.get("abstract"), None);
    assert_eq!(leaf.get("id"), None);
    assert_eq!(leaf.get("copy-from"), None);
    assert_eq!(keys(&leaf), vec!["color", "name", "size", "type"]);
    assert_eq!(leaf.get("color"), Some(&text("red")));
    assert_eq!(leaf.get("size"), Some(&text("big")));
    let middle = store.resolve(&store.records[1]).unwrap();
    assert_eq!(middle.get("copy-from"), None);
    assert_eq!(middle.get("abstract"), Some(&text("middle")));
    assert_eq!(middle.get("color"), Some(&text("red")));
}

#[test]
fn templates_leave_the_usable_set() {
    let store = tool_store();
    let usable = store.resolve_all().unwrap();
    assert_eq!(usable.len(), 1);
    assert_eq!(usable[0].get("id"), Some(&text("hammer")));
    assert_eq!(usable[0].get("weight"), Some(&text("500 g")));
    for r in &usable {
        assert!(!r.has("abstract"));
    }
}

#[test]
fn water_names_no_base() {
    let store = RecordStore { records: vec![] };
    let tea = record(&[("type", text("COMESTIBLE")), ("id", text("tea")), ("copy-from", text("water"))]);
    assert_eq!(store.resolve(&tea), Ok(tea.clone()));
}

#[test]
fn missing_reference_is_reported() {
    let store = tool_store();
    let orphan = record(&[("type", text("TOOL")), ("copy-from", text("nothing"))]);
    assert_eq!(store.resolve(&orphan), Err(ResolveError::MissingReference(s("nothing"))));
    let recipe = record(&[("type", text("recipe")), ("copy-from", text("hammer"))]);
    assert_eq!(store.resolve(&recipe), Err(ResolveError::MissingReference(s("hammer"))));
    let mut with_orphan = tool_store();
    with_orphan.records.push(orphan);
    assert_eq!(with_orphan.resolve_all(), Err(ResolveError::MissingReference(s("nothing"))));
}

#[test]
fn unreadable_reference_or_type_is_reported() {
    let store = tool_store();
    let bad = record(&[("type", text("TOOL")), ("copy-from", FieldValue::Integer(1))]);
    assert_eq!(store.resolve(&bad), Err(ResolveError::UnsupportedShape));
    let untyped = record(&[("copy-from", text("base_tool"))]);
    assert_eq!(store.resolve(&untyped), Err(ResolveError::UnsupportedShape));
}

#[test]
fn recipes_are_found_by_result_without_suffix() {
    let store = RecordStore {
        records: vec![
            record(&[("type", text("recipe")), ("result", text("rope")), ("time", text("1 m"))]),
            record(&[
                ("type", text("recipe")),
                ("result", text("rope")),
                ("id_suffix", text("fast")),
                ("time", text("1 s")),
            ]),
            record(&[("type", text("TOOL")), ("id", text("rope")), ("time", text("never"))]),
        ],
    };
    let copy = record(&[("type", text("recipe")), ("result", text("long_rope")), ("copy-from", text("rope"))]);
    let out = store.resolve(&copy).unwrap();
    assert_eq!(out.get("time"), Some(&text("1 m")));
    assert_eq!(out.get("result"), Some(&text("long_rope")));
    assert_eq!(store.base_of(&s("recipe"), &s("rope")), Ok(0));
    assert_eq!(store.base_of(&s("TOOL"), &s("rope")), Ok(2));
}

#[test]
fn several_candidates_are_told_apart_by_type() {
    let store = RecordStore {
        records: vec![
            record(&[("type", text("material")), ("id", text("steel")), ("kind", text("m"))]),
            record(&[("type", text("TOOL")), ("id", text("steel")), ("kind", text("t"))]),
            record(&[("type", text("AMMO")), ("id", text("steel")), ("kind", text("a"))]),
        ],
    };
    assert_eq!(store.base_of(&s("TOOL"), &s("steel")), Ok(1));
    assert_eq!(store.base_of(&s("material"), &s("steel")), Ok(0));
    assert_eq!(
        store.base_of(&s("GENERIC"), &s("steel")),
        Err(ResolveError::AmbiguousReference(s("steel")))
    );
    let child = record(&[("type", text("AMMO")), ("id", text("shot")), ("copy-from", text("steel"))]);
    assert_eq!(store.resolve(&child).unwrap().get("kind"), Some(&text("a")));
}

#[test]
fn generic_bone_means_the_material() {
    let store = RecordStore {
        records: vec![
            record(&[("type", text("material")), ("id", text("bone")), ("kind", text("m"))]),
            record(&[("type", text("COMESTIBLE")), ("id", text("bone")), ("kind", text("c"))]),
        ],
    };
    assert_eq!(store.base_of(&s("GENERIC"), &s("bone")), Ok(0));
    assert_eq!(
        store.base_of(&s("TOOL"), &s("bone")),
        Err(ResolveError::AmbiguousReference(s("bone")))
    );
    let twice = RecordStore {
        records: vec![
            record(&[("type", text("GENERIC")), ("id", text("bone"))]),
            record(&[("type", text("GENERIC")), ("id", text("bone"))]),
            record(&[("type", text("material")), ("id", text("bone"))]),
        ],
    };
    assert_eq!(twice.base_of(&s("GENERIC"), &s("bone")), Ok(2));
    let none = RecordStore {
        records: vec![
            record(&[("type", text("TOOL")), ("id", text("bone"))]),
            record(&[("type", text("AMMO")), ("id", text("bone"))]),
        ],
    };
    assert_eq!(
        none.base_of(&s("GENERIC"), &s("bone")),
        Err(ResolveError::AmbiguousReference(s("bone")))
    );
}

#[test]
fn identifier_is_preferred_to_template_and_last_template_wins() {
    let store = RecordStore {
        records: vec![
            record(&[("abstract", text("x")), ("from", text("first template"))]),
            record(&[("abstract", text("x")), ("from", text("second template"))]),
            record(&[("abstract", text("y")), ("from", text("template"))]),
            record(&[("type", text("TOOL")), ("id", text("y")), ("from", text("record"))]),
        ],
    };
    assert_eq!(store.base_of(&s("TOOL"), &s("x")), Ok(1));
    assert_eq!(store.base_of(&s("TOOL"), &s("y")), Ok(3));
}

#[test]
fn endless_chain_is_reported() {
    let store = RecordStore {
        records: vec![
            record(&[("type", text("TOOL")), ("id", text("a")), ("copy-from", text("b"))]),
            record(&[("type", text("TOOL")), ("id", text("b")), ("copy-from", text("a"))]),
        ],
    };
    assert!(matches!(store.resolve(&store.records[0]), Err(ResolveError::CyclicReference(_))));
    let chain = RecordStore {
        records: vec![
            record(&[("type", text("TOOL")), ("id", text("a")), ("copy-from", text("b"))]),
            record(&[("type", text("TOOL")), ("id", text("b")), ("copy-from", text("c"))]),
            record(&[("type", text("TOOL")), ("id", text("c")), ("depth", text("3"))]),
        ],
    };
    assert_eq!(chain.resolve(&chain.records[0]).unwrap().get("depth"), Some(&text("3")));
}

#[test]
fn merge_overlays_and_strips() {
    let base = record(&[("id", text("b")), ("abstract", text("b")), ("copy-from", text("z")), ("k", text("base"))]);
    let own = record(&[("k", text("own")), ("id", text("o"))]);
    let out = merge(base, &own);
    assert_eq!(out.get("k"), Some(&text("own")));
    assert_eq!(out.get("id"), Some(&text("o")));
    assert_eq!(keys(&out), vec!["id", "k"]);
    let base = record(&[("k", text("base")), ("copy-from", text("z"))]);
    let own = record(&[("copy-from", text("b")), ("id", text("o"))]);
    assert_eq!(keys(&merge(base, &own)), vec!["id", "k"]);
    assert!(reads(&s("water"), "water"));
    assert!(!reads(&s("water"), "wine"));
}

#[test]
fn record_fields_are_a_mapping() {
    let mut r = Record::new();
    assert!(!r.has("a"));
    r.insert(s("a"), text("1"));
    r.insert(s("b"), FieldValue::Integer(2));
    r.insert(s("a"), text("3"));
    assert_eq!(r.get("a"), Some(&text("3")));
    assert_eq!(r.text("a"), Some(&s("3")));
    assert_eq!(r.text("b"), None);
    assert_eq!(r.fields.len(), 2);
    r.remove("a");
    assert_eq!(r.get("a"), None);
    assert!(r.has("b"));
    let twice = record(&[("k", text("first")), ("k", text("last"))]);
    assert_eq!(twice.get("k"), Some(&text("last")));
    assert_eq!(twice.duplicate(), twice);
    let other = FieldValue::Other(serde_json::Value::String(s("x")));
    assert_eq!(other.duplicate(), other);
}

#[test]
fn own_id_is_kept_and_the_id_of_the_base_is_not() {
    let store = RecordStore {
        records: vec![
            record(&[
                ("type", text("TOOL")),
                ("id", text("saw")),
                ("abstract", text("any_saw")),
                ("copy-from", text("water")),
                ("teeth", text("many")),
            ]),
            record(&[("type", text("TOOL")), ("copy-from", text("saw")), ("name", text("e"))]),
            record(&[("type", text("TOOL")), ("id", text("own")), ("copy-from", text("saw"))]),
        ],
    };
    let plain = store.resolve(&store.records[1]).unwrap();
    assert_eq!(keys(&plain), vec!["name", "teeth", "type"]);
    let with_id = store.resolve(&store.records[2]).unwrap();
    assert_eq!(with_id.get("id"), Some(&text("own")));
    assert_eq!(keys(&with_id), vec!["id", "teeth", "type"]);
    let terminal = store.resolve(&store.records[0]).unwrap();
    assert_eq!(terminal, store.records[0]);
}
