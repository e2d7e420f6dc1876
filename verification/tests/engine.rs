use toml_maid::model::{
    Array, Decor, InlineEntry, InlineTable, Item, Kind, Scalar, Table, TableEntry, Value,
};
use toml_maid::{Config, ProcessedConfig};

fn decor(prefix: &str, suffix: &str) -> Decor {
    Decor { prefix: Some(prefix.to_string()), suffix: Some(suffix.to_string()) }
}

fn bare() -> Decor {
    Decor { prefix: None, suffix: None }
}

fn text(content: &str, repr: &str, d: Decor) -> Value {
    Value::Scalar(Scalar { kind: Kind::Text(content.to_string()), repr: repr.to_string(), decor: d })
}

fn whole(repr: &str, d: Decor) -> Value {
    Value::Scalar(Scalar { kind: Kind::Integer, repr: repr.to_string(), decor: d })
}

fn scalar(v: &Value) -> &Scalar {
    match v {
        Value::Scalar(s) => s,
        other => panic!("not a scalar: {:?}", other),
    }
}

fn array(v: &Value) -> &Array {
    match v {
        Value::Array(a) => a,
        other => panic!("not an array: {:?}", other),
    }
}

fn entry(key: &str, prefix: &str, item: Item) -> TableEntry {
    TableEntry { key: key.to_string(), decor: decor(prefix, " "), item }
}

fn table(entries: Vec<TableEntry>) -> Table {
    Table { entries, decor: bare(), implicit: false }
}

fn keys_of(t: &Table) -> Vec<String> {
    t.entries.iter().map(|e| e.key.clone()).collect()
}

fn prefixes_of(t: &Table) -> Vec<Option<String>> {
    t.entries.iter().map(|e| e.decor.prefix.clone()).collect()
}

fn config(keys: &[&str], inline_keys: &[&str], sort_arrays: bool) -> ProcessedConfig {
    let mut c = Config::default();
    c.keys = keys.iter().map(|k| k.to_string()).collect();
    c.inline_keys = inline_keys.iter().map(|k| k.to_string()).collect();
    c.sort_arrays = sort_arrays;
    c.into()
}

fn plain() -> ProcessedConfig {
    config(&[], &[], false)
}

fn some(s: &str) -> Option<String> {
    Some(s.to_string())
}

#[test]
fn default_config_is_empty() {
    let c = Config::default();
    assert!(c.keys.is_empty());
    assert!(c.inline_keys.is_empty());
    assert!(!c.sort_arrays);
    assert!(c.excludes.is_empty());
}

#[test]
fn ranks_keep_the_configured_lists() {
    let mut c = Config::default();
    c.keys = vec!["b".to_string(), "a".to_string()];
    c.inline_keys = vec!["x".to_string()];
    c.sort_arrays = true;
    c.excludes = vec!["target".to_string()];
    let p: ProcessedConfig = c.into();
    assert_eq!(p.keys.get("b"), Some(0));
    assert_eq!(p.keys.get("a"), Some(1));
    assert_eq!(p.keys.get("c"), None);
    assert_eq!(p.inline_keys.get("x"), Some(0));
    assert_eq!(p.inline_keys.get("b"), None);
    assert!(p.sort_arrays);
    assert_eq!(p.excludes, vec!["target".to_string()]);
}

#[test]
fn last_occurrence_of_a_key_gives_its_rank() {
    let p = config(&["a", "b", "a"], &[], false);
    assert_eq!(p.keys.get("a"), Some(2));
    assert_eq!(p.keys.get("b"), Some(1));
    let t = table(vec![
        entry("a", "", Item::Value(whole("1", decor(" ", "")))),
        entry("b", "", Item::Value(whole("2", decor(" ", "")))),
    ]);
    assert_eq!(keys_of(&p.format_table(&t)), vec!["b", "a"]);
}

#[test]
fn single_quotes_become_double_quotes() {
    let v = text("hello", "'hello'", decor(" ", ""));
    let r = plain().format_value(&v, false);
    let s = scalar(&r);
    assert_eq!(s.repr, "\"hello\"");
    assert_eq!(s.kind, Kind::Text("hello".to_string()));
}

#[test]
fn literal_with_backslash_is_kept() {
    let v = text("it\\'s", "'it\\'s'", decor(" ", ""));
    let r = plain().format_value(&v, false);
    assert_eq!(scalar(&r).repr, "'it\\'s'");
    assert_eq!(scalar(&r).kind, Kind::Text("it\\'s".to_string()));
}

#[test]
fn literal_with_double_quote_is_kept() {
    let v = text("say \"hi\"", "'say \"hi\"'", decor(" ", ""));
    let r = plain().format_value(&v, false);
    assert_eq!(scalar(&r).repr, "'say \"hi\"'");
}

#[test]
fn multi_line_literal_is_kept() {
    let v = text("block", "'''block'''", decor(" ", ""));
    let r = plain().format_value(&v, false);
    assert_eq!(scalar(&r).repr, "'''block'''");
}

#[test]
fn empty_literal_is_kept() {
    let v = text("", "''", decor(" ", ""));
    let r = plain().format_value(&v, false);
    assert_eq!(scalar(&r).repr, "''");
}

#[test]
fn tab_in_a_literal_is_escaped() {
    let v = text("a\tb", "'a\tb'", decor(" ", ""));
    let r = plain().format_value(&v, false);
    assert_eq!(scalar(&r).repr, "\"a\\tb\"");
    assert_eq!(scalar(&r).kind, Kind::Text("a\tb".to_string()));
}

#[test]
fn plain_literal_is_told_from_the_rest() {
    assert_eq!(toml_maid::value::plain_literal("'hello'"), some("hello"));
    assert_eq!(toml_maid::value::plain_literal("'a'b'"), some("a'b"));
    assert_eq!(toml_maid::value::plain_literal("'"), some(""));
    assert_eq!(toml_maid::value::plain_literal("'open"), some("open"));
    assert_eq!(toml_maid::value::plain_literal("''"), None);
    assert_eq!(toml_maid::value::plain_literal("'''x'''"), None);
    assert_eq!(toml_maid::value::plain_literal("\"hello\""), None);
    assert_eq!(toml_maid::value::plain_literal("'a\\b'"), None);
    assert_eq!(toml_maid::value::plain_literal("'a\"b'"), None);
    assert_eq!(toml_maid::value::plain_literal("12"), None);
    assert_eq!(toml_maid::value::plain_literal(""), None);
}

#[test]
fn format_scalar_with_uses_the_given_form() {
    let s = Scalar { kind: Kind::Integer, repr: "'x'".to_string(), decor: bare() };
    let r = toml_maid::value::format_scalar_with(&s, false, "\"<x>\"".to_string());
    assert_eq!(r.repr, "\"<x>\"");
    assert_eq!(r.kind, Kind::Text("x".to_string()));
    assert_eq!(r.decor, decor(" ", ""));
    let r = toml_maid::value::format_scalar_with(&s, true, "'x'".to_string());
    assert_eq!(r.repr, "'x'");
    assert_eq!(r.kind, Kind::Integer);
    assert_eq!(r.decor, decor(" ", " "));
    let s = Scalar { kind: Kind::Integer, repr: "12".to_string(), decor: bare() };
    let r = toml_maid::value::format_scalar_with(&s, false, "<x>".to_string());
    assert_eq!(r.repr, "12");
    assert_eq!(r.kind, Kind::Integer);
}

#[test]
fn validity_of_scalars_and_trees() {
    assert!(scalar(&text("hello", "'hello'", bare())).is_valid());
    assert!(scalar(&text("anything", "\"hello\"", bare())).is_valid());
    assert!(scalar(&whole("12", bare())).is_valid());
    assert!(!scalar(&text("other", "'hello'", bare())).is_valid());
    assert!(!scalar(&whole("'12'", bare())).is_valid());
    let good = Value::Array(Array {
        values: vec![whole("1", bare()), text("a", "'a'", bare())],
        trailing: String::new(),
        trailing_comma: false,
        decor: bare(),
    });
    assert!(good.is_valid());
    let bad = Value::InlineTable(InlineTable {
        entries: vec![InlineEntry {
            key: "k".to_string(),
            decor: bare(),
            value: Value::Array(Array {
                values: vec![whole("1", bare()), text("b", "'a'", bare())],
                trailing: String::new(),
                trailing_comma: false,
                decor: bare(),
            }),
        }],
        decor: bare(),
    });
    assert!(!bad.is_valid());
    let t = table(vec![entry("a", "", Item::Value(good)), entry("b", "", Item::Absent)]);
    assert!(t.is_valid());
    assert!(plain().format_table(&t).is_valid());
    let t = table(vec![entry("t", "", Item::Table(table(vec![entry("a", "", Item::Value(bad))])))]);
    assert!(!t.is_valid());
}

#[test]
fn scalar_decoration_is_put_in_order() {
    let c = plain();
    let r = c.format_value(&whole("1", decor("   ", "  ")), false);
    assert_eq!(scalar(&r).decor, decor(" ", ""));
    let r = c.format_value(&whole("1", decor("   ", "  ")), true);
    assert_eq!(scalar(&r).decor, decor(" ", " "));
    let r = c.format_value(&whole("1", bare()), false);
    assert_eq!(scalar(&r).decor, decor(" ", ""));
    let r = c.format_value(&whole("1", decor("", "   # note  \n")), false);
    assert_eq!(scalar(&r).decor, decor(" ", "# note"));
    let r = c.format_value(&whole("1", decor(" ", "  # c")), false);
    assert_eq!(scalar(&r).decor, decor(" ", "# c"));
    let r = c.format_value(&whole("1", decor(" ", "  # c")), true);
    assert_eq!(scalar(&r).decor, decor(" ", " # c"));
    let r = c.format_value(&whole("1", decor("\t# before\n  ", " # note")), true);
    assert_eq!(scalar(&r).decor, decor(" # before", " # note"));
    assert_eq!(scalar(&r).repr, "1");
    assert_eq!(scalar(&r).kind, Kind::Integer);
}

#[test]
fn priority_keys_come_first() {
    let c = config(&["b", "a"], &[], false);
    let t = table(vec![
        entry("a", "", Item::Value(whole("1", decor(" ", "")))),
        entry("b", "", Item::Value(whole("2", decor(" ", "")))),
        entry("c", "", Item::Value(whole("3", decor(" ", "")))),
    ]);
    let r = c.format_table(&t);
    assert_eq!(keys_of(&r), vec!["b", "a", "c"]);
}

#[test]
fn other_keys_are_sorted_by_their_text() {
    let c = config(&["z"], &[], false);
    let t = table(vec![
        entry("b", "", Item::Absent),
        entry("B", "", Item::Absent),
        entry("ab", "", Item::Absent),
        entry("z", "", Item::Absent),
        entry("a", "", Item::Absent),
        entry("é", "", Item::Absent),
    ]);
    let r = c.format_table(&t);
    assert_eq!(keys_of(&r), vec!["z", "B", "a", "ab", "b", "é"]);
}

#[test]
fn array_sort_with_mixed_types() {
    let c = config(&[], &[], true);
    let a = Value::Array(Array {
        values: vec![
            whole("3", decor("", "")),
            text("b", "\"b\"", decor(" ", "")),
            whole("1", decor(" ", "")),
            text("a", "\"a\"", decor(" ", "")),
        ],
        trailing: String::new(),
        trailing_comma: false,
        decor: decor(" ", ""),
    });
    let r = c.format_value(&a, false);
    let reprs: Vec<String> = array(&r).values.iter().map(|v| scalar(v).repr.clone()).collect();
    assert_eq!(reprs, vec!["\"a\"", "\"b\"", "3", "1"]);
}

#[test]
fn array_is_left_in_order_without_the_setting() {
    let c = plain();
    let a = Array {
        values: vec![
            whole("3", decor("", "")),
            text("b", "\"b\"", decor(" ", "")),
            whole("1", decor(" ", "")),
            text("a", "\"a\"", decor(" ", "")),
        ],
        trailing: String::new(),
        trailing_comma: true,
        decor: decor("", " # gone"),
    };
    let r = c.format_array(&a, false);
    let reprs: Vec<String> = r.values.iter().map(|v| scalar(v).repr.clone()).collect();
    assert_eq!(reprs, vec!["3", "\"b\"", "1", "\"a\""]);
    assert_eq!(r.trailing, "");
    assert!(!r.trailing_comma);
    assert_eq!(r.decor, decor(" ", ""));
    assert_eq!(scalar(&r.values[0]).decor, decor(" ", ""));
    assert_eq!(scalar(&r.values[2]).decor, decor(" ", ""));
    assert_eq!(scalar(&r.values[3]).decor, decor(" ", " "));
    let r = c.format_array(&a, true);
    assert_eq!(r.decor, decor(" ", " "));
}

#[test]
fn inline_array_drops_the_text_before_the_bracket() {
    let a = Array {
        values: vec![],
        trailing: "  ".to_string(),
        trailing_comma: true,
        decor: bare(),
    };
    let r = plain().format_array(&a, false);
    assert!(r.values.is_empty());
    assert_eq!(r.trailing, "");
    assert!(!r.trailing_comma);
}

#[test]
fn multi_line_array_layout() {
    let a = Array {
        values: vec![
            whole("1", decor("\n    ", "")),
            whole("2", decor("\n    # two\n    ", " # after  ")),
            whole("3", decor(" # odd\n\n  ", "\n")),
        ],
        trailing: " # end \n".to_string(),
        trailing_comma: false,
        decor: decor("", ""),
    };
    assert!(toml_maid::value::array_is_multiline(&a));
    let r = plain().format_array(&a, false);
    assert!(r.trailing_comma);
    assert_eq!(r.trailing, " # end\n");
    assert_eq!(scalar(&r.values[0]).decor, decor("\n\t", ""));
    assert_eq!(scalar(&r.values[1]).decor, decor("\n\t# two\n\t", "# after\n"));
    assert_eq!(scalar(&r.values[2]).decor, decor(" # odd\n\t", ""));
    assert_eq!(r.decor, decor(" ", ""));
}

#[test]
fn every_line_before_an_element_gets_one_tab() {
    let a = Array {
        values: vec![
            whole("1", decor("\n  # c\n  ", "")),
            whole("2", decor("\n\n \t # d\n# e\n\t\t# f  \n      ", "")),
            whole("3", decor(" # g\n    # h\n", "")),
        ],
        trailing: "\n".to_string(),
        trailing_comma: true,
        decor: bare(),
    };
    let r = plain().format_array(&a, false);
    assert_eq!(scalar(&r.values[0]).decor.prefix, some("\n\t# c\n\t"));
    assert_eq!(scalar(&r.values[1]).decor.prefix, some("\n\t\n\t# d\n\t# e\n\t# f  \n\t"));
    assert_eq!(scalar(&r.values[2]).decor.prefix, some(" # g\n\t# h\n\t"));
    let again = plain().format_array(&r, false);
    assert_eq!(again, r);
}

#[test]
fn multi_line_array_by_its_closing_text() {
    let a = Array {
        values: vec![whole("1", decor("", ""))],
        trailing: "\n  # c\n  ".to_string(),
        trailing_comma: false,
        decor: bare(),
    };
    assert!(toml_maid::value::array_is_multiline(&a));
    let r = plain().format_array(&a, true);
    assert_eq!(r.trailing, "\n  # c\n");
    assert!(r.trailing_comma);
    assert_eq!(scalar(&r.values[0]).decor, decor("\n\t", ""));
    assert_eq!(r.decor, decor(" ", " "));
    let empty = Array { values: vec![], trailing: "\n".to_string(), trailing_comma: false, decor: bare() };
    let r = plain().format_array(&empty, false);
    assert_eq!(r.trailing, "\n");
    assert!(r.trailing_comma);
}

#[test]
fn one_line_array_is_told_from_a_multi_line_one() {
    let a = Array {
        values: vec![whole("1", decor(" ", " ")), whole("2", bare())],
        trailing: " \n".to_string(),
        trailing_comma: false,
        decor: bare(),
    };
    assert!(!toml_maid::value::array_is_multiline(&a));
    let b = Array {
        values: vec![whole("1", decor(" ", " ")), whole("2", decor("", " \n"))],
        trailing: String::new(),
        trailing_comma: false,
        decor: bare(),
    };
    assert!(toml_maid::value::array_is_multiline(&b));
}

#[test]
fn nested_values_in_a_multi_line_array() {
    let inner = Value::Array(Array {
        values: vec![whole("1", decor("", ""))],
        trailing: String::new(),
        trailing_comma: false,
        decor: decor("\n  ", ""),
    });
    let a = Array { values: vec![inner], trailing: "\n".to_string(), trailing_comma: true, decor: bare() };
    let r = plain().format_array(&a, false);
    let got = array(&r.values[0]);
    assert_eq!(got.decor, decor("\n\t", ""));
    assert_eq!(scalar(&got.values[0]).decor, decor(" ", " "));
    assert!(!got.trailing_comma);
}

#[test]
fn inline_table_is_sorted_and_spaced() {
    let c = config(&["a"], &["z"], false);
    let t = InlineTable {
        entries: vec![
            InlineEntry { key: "b".to_string(), decor: decor("", ""), value: whole("1", decor("", "")) },
            InlineEntry { key: "z".to_string(), decor: bare(), value: text("x", "'x'", bare()) },
            InlineEntry { key: "a".to_string(), decor: decor("  ", "  "), value: whole("3", decor("  ", "  ")) },
        ],
        decor: decor(" ", " # gone"),
    };
    let r = c.format_inline_table(&t, false);
    let keys: Vec<&str> = r.entries.iter().map(|e| e.key.as_str()).collect();
    assert_eq!(keys, vec!["z", "a", "b"]);
    for e in &r.entries {
        assert_eq!(e.decor, decor(" ", " "));
    }
    assert_eq!(scalar(&r.entries[0].value).repr, "\"x\"");
    assert_eq!(scalar(&r.entries[0].value).decor, decor(" ", ""));
    assert_eq!(scalar(&r.entries[1].value).decor, decor(" ", ""));
    assert_eq!(scalar(&r.entries[2].value).decor, decor(" ", " "));
    assert_eq!(r.decor, bare());
    let r = c.format_inline_table(&t, true);
    assert_eq!(r.decor, Decor { prefix: None, suffix: some(" ") });
}

#[test]
fn empty_table_stays_empty() {
    let t = Table { entries: vec![], decor: decor("\n", " # t"), implicit: false };
    let r = plain().format_table(&t);
    assert!(r.entries.is_empty());
    assert!(r.implicit);
    assert_eq!(r.decor, decor("\n", " # t"));
    let r = plain().format_table(&table(vec![]));
    assert_eq!(r.decor, decor("", ""));
}

#[test]
fn sections_are_sorted_apart() {
    let c = plain();
    let t = table(vec![
        entry("z", "# top\n", Item::Absent),
        entry("y", "", Item::Absent),
        entry("b", "\n# second\n", Item::Absent),
        entry("a", "# about a\n", Item::Absent),
        entry("c", "", Item::Absent),
        entry("x", "\n", Item::Absent),
    ]);
    let r = c.format_table(&t);
    assert_eq!(keys_of(&r), vec!["y", "z", "a", "b", "c", "x"]);
    assert_eq!(
        prefixes_of(&r),
        vec![some("# top\n"), some(""), some("\n# second\n"), some(""), some(""), some("\n")]
    );
}

#[test]
fn comment_of_a_later_entry_stays_with_it() {
    let t = table(vec![
        entry("b", "", Item::Absent),
        entry("a", "# about a\n", Item::Absent),
        TableEntry { key: "c".to_string(), decor: bare(), item: Item::Absent },
    ]);
    let r = plain().format_table(&t);
    assert_eq!(keys_of(&r), vec!["a", "b", "c"]);
    assert_eq!(prefixes_of(&r), vec![some("# about a\n"), some(""), None]);
}

#[test]
fn first_entry_may_start_with_an_empty_line() {
    let t = table(vec![entry("b", "\n# top\n", Item::Absent), entry("a", "", Item::Absent)]);
    let r = plain().format_table(&t);
    assert_eq!(keys_of(&r), vec!["a", "b"]);
    assert_eq!(prefixes_of(&r), vec![some("\n# top\n"), some("")]);
}

#[test]
fn line_breaks_behind_an_entry_are_dropped() {
    let t = table(vec![
        TableEntry { key: "a".to_string(), decor: decor("", " \n\n"), item: Item::Absent },
        TableEntry { key: "b".to_string(), decor: Decor { prefix: None, suffix: None }, item: Item::Absent },
        TableEntry { key: "c".to_string(), decor: decor("", "\n \n"), item: Item::Absent },
    ]);
    let r = plain().format_table(&t);
    assert_eq!(r.entries[0].decor.suffix, some(" "));
    assert_eq!(r.entries[1].decor.suffix, None);
    assert_eq!(r.entries[2].decor.suffix, some("\n "));
}

#[test]
fn nested_tables_are_formatted() {
    let inner = table(vec![
        entry("y", "", Item::Value(text("v", "'v'", decor("  ", "")))),
        entry("x", "", Item::Absent),
    ]);
    let t = table(vec![entry("t", "", Item::Table(inner))]);
    let r = config(&[], &[], false).format_table(&t);
    match &r.entries[0].item {
        Item::Table(got) => {
            assert_eq!(keys_of(got), vec!["x", "y"]);
            assert!(got.implicit);
            match &got.entries[1].item {
                Item::Value(v) => {
                    assert_eq!(scalar(v).repr, "\"v\"");
                    assert_eq!(scalar(v).decor, decor(" ", ""));
                }
                other => panic!("not a value: {:?}", other),
            }
        }
        other => panic!("not a table: {:?}", other),
    }
}

#[test]
fn array_of_tables_passes_through() {
    let doc: toml_edit::Document = "[[bin]]\nname = 'x'\n\n[[bin]]\nname = 'y' # c\n".parse().unwrap();
    let aot = doc.as_table().get("bin").unwrap().as_array_of_tables().unwrap().clone();
    let before = format!("{:?}", aot);
    let t = table(vec![entry("bin", "", Item::ArrayOfTables(aot))]);
    let r = plain().format_table(&t);
    match &r.entries[0].item {
        Item::ArrayOfTables(got) => {
            assert_eq!(got.len(), 2);
            assert_eq!(format!("{:?}", got), before);
        }
        other => panic!("not an array of tables: {:?}", other),
    }
}

#[test]
fn formatting_twice_changes_nothing_more() {
    let c = config(&["name"], &["version"], true);
    let value = Value::Array(Array {
        values: vec![
            text("b", "'b'", decor("\n   ", " # one")),
            whole("2", decor("\n", "")),
            Value::InlineTable(InlineTable {
                entries: vec![
                    InlineEntry { key: "x".to_string(), decor: bare(), value: whole("1", bare()) },
                    InlineEntry { key: "version".to_string(), decor: bare(), value: text("1", "'1'", bare()) },
                ],
                decor: decor(" ", ""),
            }),
            text("a", "\"a\"", decor("\n# about a\n   ", "")),
        ],
        trailing: " # end\n".to_string(),
        trailing_comma: false,
        decor: decor("", " # gone"),
    });
    let once = c.format_value(&value, false);
    let twice = c.format_value(&once, false);
    assert_eq!(once, twice);
    let t = table(vec![
        entry("z", "# top\n", Item::Value(value)),
        entry("name", "# n\n", Item::Value(text("n", "'n'", decor("", " # c\n")))),
        entry("b", "\n\n# second\n", Item::Value(whole("1", decor(" ", "")))),
        entry("a", "", Item::Absent),
    ]);
    let once = c.format_table(&t);
    let twice = c.format_table(&once);
    assert_eq!(format!("{:?}", once), format!("{:?}", twice));
    assert_eq!(keys_of(&once), vec!["name", "z", "a", "b"]);
}
