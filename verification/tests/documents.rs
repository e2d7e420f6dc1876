use toml_maid::model::{
    Array, Decor, Document, InlineEntry, InlineTable, Item, Kind, Scalar, Table, TableEntry, Value,
};
use toml_maid::{finish, outcome, Config, Outcome, ProcessedConfig};

fn raw(text: &toml_edit::RawString) -> String {
    text.as_str().expect("a parsed document holds its text").to_string()
}

fn decor_in(d: &toml_edit::Decor) -> Decor {
    Decor { prefix: d.prefix().map(raw), suffix: d.suffix().map(raw) }
}

fn value_in(v: &toml_edit::Value) -> Value {
    match v {
        toml_edit::Value::Array(a) => Value::Array(Array {
            values: a.iter().map(value_in).collect(),
            trailing: raw(a.trailing()),
            trailing_comma: a.trailing_comma(),
            decor: decor_in(a.decor()),
        }),
        toml_edit::Value::InlineTable(t) => Value::InlineTable(InlineTable {
            entries: t
                .iter()
                .map(|(k, v)| InlineEntry {
                    key: k.to_string(),
                    decor: decor_in(t.key_decor(k).expect("a key has a decoration")),
                    value: value_in(v),
                })
                .collect(),
            decor: decor_in(t.decor()),
        }),
        other => {
            let kind = match other {
                toml_edit::Value::String(s) => Kind::Text(s.value().clone()),
                toml_edit::Value::Integer(_) => Kind::Integer,
                toml_edit::Value::Float(_) => Kind::Float,
                toml_edit::Value::Boolean(_) => Kind::Boolean,
                _ => Kind::Datetime,
            };
            Value::Scalar(Scalar {
                kind,
                repr: other.clone().decorated("", "").to_string(),
                decor: decor_in(other.decor()),
            })
        }
    }
}

fn item_in(item: &toml_edit::Item) -> Item {
    match item {
        toml_edit::Item::None => Item::Absent,
        toml_edit::Item::Value(v) => Item::Value(value_in(v)),
        toml_edit::Item::Table(t) => Item::Table(table_in(t)),
        toml_edit::Item::ArrayOfTables(a) => Item::ArrayOfTables(a.clone()),
    }
}

fn table_in(t: &toml_edit::Table) -> Table {
    Table {
        entries: t
            .iter()
            .map(|(k, item)| TableEntry {
                key: k.to_string(),
                decor: decor_in(t.key_decor(k).expect("a key has a decoration")),
                item: item_in(item),
            })
            .collect(),
        decor: decor_in(t.decor()),
        implicit: t.is_implicit(),
    }
}

fn document_in(d: &toml_edit::Document) -> Document {
    Document { root: table_in(d.as_table()), trailing: raw(d.trailing()) }
}

fn decor_out(d: &Decor) -> toml_edit::Decor {
    let mut r = toml_edit::Decor::default();
    if let Some(p) = &d.prefix {
        r.set_prefix(p.clone());
    }
    if let Some(s) = &d.suffix {
        r.set_suffix(s.clone());
    }
    r
}

fn value_out(v: &Value) -> toml_edit::Value {
    match v {
        Value::Scalar(s) => {
            let mut r: toml_edit::Value = s.repr.parse().expect("a scalar is written as a value");
            *r.decor_mut() = decor_out(&s.decor);
            r
        }
        Value::Array(a) => {
            let mut r = toml_edit::Array::new();
            for v in &a.values {
                r.push_formatted(value_out(v));
            }
            r.set_trailing(a.trailing.clone());
            r.set_trailing_comma(a.trailing_comma);
            *r.decor_mut() = decor_out(&a.decor);
            toml_edit::Value::Array(r)
        }
        Value::InlineTable(t) => {
            let mut r = toml_edit::InlineTable::new();
            for e in &t.entries {
                r.insert(&e.key, value_out(&e.value));
                *r.key_decor_mut(&e.key).expect("the key was put in") = decor_out(&e.decor);
            }
            *r.decor_mut() = decor_out(&t.decor);
            toml_edit::Value::InlineTable(r)
        }
    }
}

fn item_out(item: &Item) -> toml_edit::Item {
    match item {
        Item::Absent => toml_edit::Item::None,
        Item::Value(v) => toml_edit::Item::Value(value_out(v)),
        Item::Table(t) => toml_edit::Item::Table(table_out(t)),
        Item::ArrayOfTables(a) => toml_edit::Item::ArrayOfTables(a.clone()),
    }
}

fn table_out(t: &Table) -> toml_edit::Table {
    let mut r = toml_edit::Table::new();
    r.set_implicit(t.implicit);
    *r.decor_mut() = decor_out(&t.decor);
    for e in &t.entries {
        r.insert(&e.key, item_out(&e.item));
        *r.key_decor_mut(&e.key).expect("the key was put in") = decor_out(&e.decor);
    }
    r
}

fn document_out(d: &Document) -> toml_edit::Document {
    let mut r: toml_edit::Document = table_out(&d.root).into();
    r.set_trailing(d.trailing.clone());
    r
}

fn format_with(config: &ProcessedConfig, text: &str) -> String {
    let parsed: toml_edit::Document = text.parse().expect("a valid document");
    let doc = document_in(&parsed);
    assert!(doc.root.is_valid());
    let formatted = config.format_document(&doc);
    assert!(formatted.root.is_valid());
    finish(&document_out(&formatted).to_string())
}

fn config(keys: &[&str], inline_keys: &[&str], sort_arrays: bool) -> ProcessedConfig {
    let mut c = Config::default();
    c.keys = keys.iter().map(|k| k.to_string()).collect();
    c.inline_keys = inline_keys.iter().map(|k| k.to_string()).collect();
    c.sort_arrays = sort_arrays;
    c.into()
}

fn format(text: &str) -> String {
    format_with(&config(&[], &[], false), text)
}

fn settles(config: &ProcessedConfig, text: &str) {
    let once = format_with(config, text);
    let twice = format_with(config, &once);
    assert_eq!(once, twice);
    assert_eq!(outcome(&once, &twice, false), Outcome::Unchanged);
    assert_eq!(outcome(&once, &twice, true), Outcome::CheckPassed);
}

#[test]
fn reading_and_writing_back_keeps_the_text() {
    let text = "# top\nb = 2 # two\n\n[t]\nx = [\n  1, # one\n  2\n]\ny = { a = 1 }\n\n[[l]]\nk = 'v'\n# end\n";
    let parsed: toml_edit::Document = text.parse().unwrap();
    let doc = document_in(&parsed);
    assert_eq!(doc.trailing, "# end\n");
    let keys: Vec<&str> = doc.root.entries.iter().map(|e| e.key.as_str()).collect();
    assert_eq!(keys, vec!["b", "t", "l"]);
    assert_eq!(doc.root.entries[0].decor.prefix, Some("# top\n".to_string()));
}

#[test]
fn keys_are_sorted() {
    assert_eq!(format("b = 2\na = 1\n"), "a = 1\nb = 2\n");
}

#[test]
fn priority_keys_come_first_in_a_document() {
    let c = config(&["b", "a"], &[], false);
    assert_eq!(format_with(&c, "a = 1\nb = 2\nc = 3\n"), "b = 2\na = 1\nc = 3\n");
}

#[test]
fn quotes_are_normalised_in_a_document() {
    assert_eq!(format("a = 'hello'\n"), "a = \"hello\"\n");
    assert_eq!(format("a = 'C:\\dir'\n"), "a = 'C:\\dir'\n");
    assert_eq!(format("a = '''\nblock'''\n"), "a = '''\nblock'''\n");
    assert_eq!(format("a = 'say \"hi\"'\n"), "a = 'say \"hi\"'\n");
}

#[test]
fn spacing_is_normalised() {
    assert_eq!(format("a   =    1\n"), "a   = 1\n");
    assert_eq!(format("a =1# note\n"), "a = 1# note\n");
    assert_eq!(format("a = 1   # note\n"), "a = 1# note\n");
    assert_eq!(format("a = true   \n"), "a = true\n");
}

#[test]
fn sections_and_comments_in_a_document() {
    let text = "# header\nz = 1\na = 2\n\n# second\ny = 'x'\nb = [3, \"b\", 1, \"a\"]\n";
    let want = "# header\na = 2\nz = 1\n\n# second\nb = [ 3, \"b\", 1, \"a\" ]\ny = \"x\"\n";
    assert_eq!(format(text), want);
}

#[test]
fn arrays_are_sorted_in_a_document() {
    let c = config(&[], &[], true);
    assert_eq!(format_with(&c, "a = [3, \"b\", 1, \"a\"]\n"), "a = [ \"a\", \"b\", 3, 1 ]\n");
    assert_eq!(format_with(&c, "a = []\n"), "a = []\n");
}

#[test]
fn multi_line_array_in_a_document() {
    let text = "a = [\n  \"x\", # first\n  \"y\"\n]\n";
    let want = "a = [\n\t\"x\", # first\n\t\"y\",\n]\n";
    assert_eq!(format(text), want);
    let text = "a = [\n    # about x\n    'x',\n    1,\n    # closing\n]\n";
    let want = "a = [\n\t# about x\n\t\"x\",\n\t1,\n    # closing\n]\n";
    assert_eq!(format(text), want);
}

#[test]
fn inline_tables_in_a_document() {
    let c = config(&[], &["version"], false);
    let text = "d = {path='p',   version = \"1\",features=['b','a']}\n";
    let want = "d = { version = \"1\", features = [ \"b\", \"a\" ], path = \"p\" }\n";
    assert_eq!(format_with(&c, text), want);
}

#[test]
fn tables_in_a_document() {
    let text = "[package]\nversion = \"1\"\nname = 'n'\n\n[dependencies]\nb = { version = \"1\", path = 'p' }\na = \"2\"\n";
    let want = "\n[dependencies]\na = \"2\"\nb = { path = \"p\", version = \"1\" }\n[package]\nname = \"n\"\nversion = \"1\"\n";
    assert_eq!(format(text), want);
}

#[test]
fn array_of_tables_is_left_alone() {
    let text = "[[bin]]\nname   = 'x'\nb = 1\na = 2\n";
    assert_eq!(format(text), text);
}

#[test]
fn text_after_the_last_entry_is_kept() {
    assert_eq!(format("b = 1\na = 2\n# the end\n\n\n"), "a = 2\nb = 1\n# the end\n");
}

#[test]
fn comments_are_kept() {
    let text = "# top\na = 1 # one\n# about b\nb = [\n  1, # first\n  # second\n  2,\n  # closing\n]\n\n# section\nc = 'x' # see\n# end\n";
    let out = format(text);
    let comments = [
        "# top", "# one", "# about b", "# first", "# second", "# closing", "# section", "# see",
        "# end",
    ];
    for c in comments {
        assert_eq!(out.matches(c).count(), 1, "{} in {:?}", c, out);
    }
    assert_eq!(out.matches('#').count(), comments.len());
    let want = "# top\na = 1# one\n# about b\nb = [\n\t1, # first\n\t# second\n\t2,\n  # closing\n]\n\n# section\nc = \"x\"# see\n# end\n";
    assert_eq!(out, want);
}

#[test]
fn comments_in_replaced_decorations_are_dropped() {
    assert_eq!(format("a = [1] # behind an array\n"), "a = [ 1 ]\n");
    assert_eq!(format("a = { b = 1 } # behind a table\n"), "a = { b = 1 }\n");
    assert_eq!(format("# top\nb = 1\n# about a\na = 2\n"), "# top\na = 2\nb = 1\n");
}

#[test]
fn text_after_the_last_entry_is_not_touched() {
    let parsed: toml_edit::Document = "a = 1\n# the end  \n\n".parse().unwrap();
    let doc = document_in(&parsed);
    let formatted = config(&[], &[], false).format_document(&doc);
    assert_eq!(formatted.trailing, "# the end  \n\n");
    assert_eq!(formatted.trailing, doc.trailing);
}

#[test]
fn empty_lines_at_the_start_stay() {
    let text = "\n\na = 1\n";
    let out = format(text);
    assert_eq!(out, text);
    assert_eq!(outcome(text, &out, false), Outcome::Unchanged);
    assert_eq!(outcome(text, &out, true), Outcome::CheckPassed);
}

#[test]
fn array_read_from_text_gets_a_tab_on_every_line() {
    let parsed: toml_edit::Document = "a = [\n  # c\n  1,\n]\n".parse().unwrap();
    let doc = document_in(&parsed);
    let array = match &doc.root.entries[0].item {
        Item::Value(Value::Array(a)) => a,
        other => panic!("not an array: {:?}", other),
    };
    assert_eq!(array.values[0].decor().prefix, Some("\n  # c\n  ".to_string()));
    let r = config(&[], &[], false).format_array(array, false);
    assert_eq!(r.values[0].decor().prefix, Some("\n\t# c\n\t".to_string()));
    assert_eq!(format("a = [\n  # c\n  1,\n]\n"), "a = [\n\t# c\n\t1,\n]\n");
}

#[test]
fn empty_document() {
    assert_eq!(format(""), "\n");
    assert_eq!(format("# only a comment\n"), "# only a comment\n");
}

#[test]
fn formatted_text_settles() {
    let c = config(&["name", "version"], &["version"], true);
    let texts = [
        "b = 2\na = 1\n",
        "# header\nz = 1\na = 2\n\n# second\ny = 'x'\nb = [3, \"b\", 1, \"a\"]\n",
        "a = [\n  \"x\", # first\n  \"y\"\n]\n",
        "a = [\n    # about x\n    'x',\n    1,\n    # closing\n]\n",
        "d = {path='p',   version = \"1\",features=['b','a']}\n",
        "[package]\nversion = \"1\"\nname = 'n'\n\n[dependencies]\nb = { version = \"1\", path = 'p' }\na = \"2\"\n",
        "[[bin]]\nname   = 'x'\n\n[a]\nz = [ [2, 1], ['b', 'a'] ]\n# the end\n",
        "\n\n# top\n\nx = 1 # one\n\n\ny = '2'\n",
        "",
    ];
    for text in texts {
        settles(&c, text);
        settles(&config(&[], &[], false), text);
    }
}
