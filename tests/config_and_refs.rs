use git_pack::config_snapshot::{parse_integer, ConfigEntry, Snapshot, ValueError};
use git_pack::config_value::{Boolean, ColorAttribute, ColorValue, FalseVariant, Integer, IntegerSuffix, TrueVariant, Value};
use git_pack::traverse::SafetyCheck;
use git_pack::count::CountBytes;
use git_pack::index_extensions::{Extensions, END_OF_INDEX_ENTRY_SIGNATURE, TREE_SIGNATURE};
use git_pack::packed_refs::{Buffer, Change, LockState, PackedRef, RefEdit, Transaction};

fn entry(section: &str, sub: Option<&str>, name: &str, value: Option<&str>) -> ConfigEntry {
    ConfigEntry {
        section: section.as_bytes().to_vec(),
        subsection: sub.map(|s| s.as_bytes().to_vec()),
        name: name.as_bytes().to_vec(),
        value: value.map(|v| v.as_bytes().to_vec()),
    }
}

fn snapshot() -> Snapshot {
    Snapshot {
        entries: vec![
            entry("core", None, "bare", Some("false")),
            entry("Core", None, "BARE", Some("yes")),
            entry("core", None, "implicit", None),
            entry("pack", None, "windowMemory", Some("2k")),
            entry("pack", None, "depth", Some("-3")),
            entry("pack", None, "bad", Some("12q")),
            entry("remote", Some("origin.x"), "url", Some("https://example.com")),
        ],
    }
}

#[test]
fn booleans_parse_in_any_case() {
    assert_eq!(Boolean::from_str("YeS"), Ok(Boolean::True(TrueVariant::Yes)));
    assert_eq!(Boolean::from_str("one"), Ok(Boolean::True(TrueVariant::One)));
    assert_eq!(Boolean::from_str("OFF"), Ok(Boolean::False(FalseVariant::Off)));
    assert_eq!(Boolean::from_str(""), Ok(Boolean::False(FalseVariant::EmptyString)));
    assert_eq!(Boolean::from_str("maybe"), Err(()));
    assert_eq!(TrueVariant::from_str("no"), Err(()));
    assert_eq!(FalseVariant::from_str("zero"), Ok(FalseVariant::Zero));
    assert!(Boolean::True(TrueVariant::Implicit).to_bool());
}

#[test]
fn integer_suffixes_scale() {
    assert_eq!(IntegerSuffix::from_str("k"), Ok(IntegerSuffix::Kilo));
    assert_eq!(IntegerSuffix::from_str("g"), Ok(IntegerSuffix::Giga));
    assert_eq!(IntegerSuffix::from_str("K"), Err(()));
    assert_eq!(IntegerSuffix::Mega.bitwise_offset(), 20);
    assert_eq!(Integer { value: 3, suffix: Some(IntegerSuffix::Mega) }.to_decimal(), Some(3 << 20));
    assert_eq!(Integer { value: i64::MAX, suffix: Some(IntegerSuffix::Kilo) }.to_decimal(), None);
    assert_eq!(Integer { value: -7, suffix: None }.to_decimal(), Some(-7));
}

#[test]
fn values_keep_text() {
    assert_eq!(Value::from_str("abc"), Value::Other("abc".to_string()));
    assert_eq!(Value::from_string("x".to_string()), Value::Other("x".to_string()));
}

#[test]
fn integers_parse_with_sign_and_suffix() {
    assert_eq!(parse_integer(b"42"), Some(42));
    assert_eq!(parse_integer(b"-42"), Some(-42));
    assert_eq!(parse_integer(b"1G"), Some(1 << 30));
    assert_eq!(parse_integer(b"9223372036854775807"), Some(i64::MAX));
    assert_eq!(parse_integer(b"9223372036854775808"), None);
    assert_eq!(parse_integer(b"-9223372036854775808"), Some(i64::MIN));
    assert_eq!(parse_integer(b""), None);
    assert_eq!(parse_integer(b"k"), None);
    assert_eq!(parse_integer(b"1x"), None);
}

#[test]
fn snapshot_takes_the_last_value() {
    let s = snapshot();
    assert_eq!(s.boolean("core.bare"), Some(true));
    assert_eq!(s.try_boolean("core.implicit"), Some(Ok(true)));
    assert_eq!(s.try_boolean("pack.depth"), Some(Err(ValueError)));
    assert_eq!(s.boolean("pack.depth"), None);
    assert_eq!(s.boolean("core.missing"), None);
    assert_eq!(s.integer("pack.windowmemory"), Some(2048));
    assert_eq!(s.integer("pack.depth"), Some(-3));
    assert_eq!(s.try_integer("pack.bad"), Some(Err(ValueError)));
    assert_eq!(s.try_integer("core.implicit"), Some(Err(ValueError)));
    assert_eq!(s.string("remote.origin.x.url"), Some(b"https://example.com".to_vec()));
    assert_eq!(s.string("remote.origin.url"), None);
    assert_eq!(s.string("core.implicit"), Some(Vec::new()));
    assert_eq!(s.string("nodots"), None);
    assert_eq!(s.plumbing().len(), 7);
}

#[test]
fn extensions_are_chosen() {
    assert_eq!(Extensions::default(), Extensions::All);
    assert_eq!(Extensions::All.should_write(TREE_SIGNATURE), Some(TREE_SIGNATURE));
    assert_eq!(Extensions::Nothing.should_write(TREE_SIGNATURE), None);
    let given = Extensions::Given { tree_cache: false, end_of_index_entry: true };
    assert_eq!(given.should_write(TREE_SIGNATURE), None);
    assert_eq!(given.should_write(END_OF_INDEX_ENTRY_SIGNATURE), Some(END_OF_INDEX_ENTRY_SIGNATURE));
    assert_eq!(given.should_write(*b"LINK"), None);
}

#[test]
fn prepare_drops_deletions_of_absent_refs() {
    let buffer = Buffer { refs: vec![PackedRef { name: b"refs/heads/main".to_vec(), target: [1u8; 20] }] };
    let t = Transaction::new_from_pack_and_lock(buffer);
    assert_eq!(t.buffer().map(|b| b.refs.len()), Some(1));
    let edits = vec![
        RefEdit { name: b"refs/heads/gone".to_vec(), change: Change::Delete },
        RefEdit { name: b"refs/heads/main".to_vec(), change: Change::Delete },
        RefEdit { name: b"refs/heads/new".to_vec(), change: Change::Update { new: [2u8; 20] } },
    ];
    let t = t.prepare(edits);
    let kept = t.edits.as_ref().unwrap();
    assert_eq!(kept.len(), 2);
    assert_eq!(kept[0].name, b"refs/heads/main".to_vec());
    assert_eq!(kept[1].name, b"refs/heads/new".to_vec());
    assert_eq!(t.lock, LockState::Held);
}

#[test]
fn prepare_with_nothing_left_gives_up_the_lock() {
    let t = Transaction::new_from_pack_and_lock(Buffer { refs: Vec::new() });
    let t = t.prepare(vec![RefEdit { name: b"refs/heads/gone".to_vec(), change: Change::Delete }]);
    assert!(t.edits.as_ref().unwrap().is_empty());
    assert_eq!(t.lock, LockState::Closed);
    let empty = Transaction::new_empty();
    assert!(empty.buffer().is_none());
    let kept = empty.prepare(vec![RefEdit { name: b"refs/x".to_vec(), change: Change::Delete }]);
    assert_eq!(kept.edits.as_ref().unwrap().len(), 1);
    assert_eq!(kept.lock, LockState::Held);
    let _ = CountBytes::new(Vec::new());
}

#[test]
fn color_values_parse() {
    assert_eq!(ColorValue::from_str("normal"), Ok(ColorValue::Normal));
    assert_eq!(ColorValue::from_str("magenta"), Ok(ColorValue::Magenta));
    assert_eq!(ColorValue::from_str("brightred"), Err(()));
    assert_eq!(ColorValue::from_str("42"), Ok(ColorValue::Ansi(42)));
    assert_eq!(ColorValue::from_str("+7"), Ok(ColorValue::Ansi(7)));
    assert_eq!(ColorValue::from_str("256"), Err(()));
    assert_eq!(ColorValue::from_str("#ff8000"), Ok(ColorValue::Rgb(255, 128, 0)));
    assert_eq!(ColorValue::from_str("#FF80zz"), Err(()));
    assert_eq!(ColorValue::from_str("#fff"), Err(()));
    assert_eq!(ColorValue::from_str(""), Err(()));
}

#[test]
fn color_attributes_parse() {
    assert_eq!(ColorAttribute::from_str("nobold"), Ok(ColorAttribute::NoBold));
    assert_eq!(ColorAttribute::from_str("no-ul"), Ok(ColorAttribute::NoUl));
    assert_eq!(ColorAttribute::from_str("xxitalic"), Ok(ColorAttribute::Italic));
    assert_eq!(ColorAttribute::from_str("n"), Err(()));
    assert_eq!(ColorAttribute::from_str("nofoo"), Err(()));
}

#[test]
fn only_the_most_permissive_check_forgives_decode_errors() {
    assert!(SafetyCheck::All.fatal_decode_error());
    assert!(SafetyCheck::SkipFileChecksumVerification.fatal_decode_error());
    assert!(!SafetyCheck::SkipFileAndObjectChecksumVerification.fatal_decode_error());
}
