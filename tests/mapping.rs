use fdtshim_mapping::dtb_data::{join_quoted, DtbData, DtbError};
use fdtshim_mapping::mapping::{mapping_document, order_by, split_by_key};
use fdtshim_mapping::order::str_lt;

const HEADER: &str = "/dts-v1/;\n\n/ {\n\tfdtshim,schema-version = \"0.1\";\n\tfdtshim,generator = \"fdtshim-mapping-generator\";\n\tcompatible = \"fdtshim,mapping\";\n};\n\n";

fn record(path: &str, model: &str, compatibles: &[&str]) -> DtbData {
    DtbData {
        path: path.to_string(),
        model: model.to_string(),
        compatibles: compatibles.iter().map(|c| c.to_string()).collect(),
    }
}

fn pad4(v: &mut Vec<u8>) {
    while v.len() % 4 != 0 {
        v.push(0);
    }
}

/// The bytes of a string-list property value.
fn str_list(values: &[&str]) -> Vec<u8> {
    let mut value: Vec<u8> = Vec::new();
    for v in values.iter() {
        value.extend_from_slice(v.as_bytes());
        value.push(0);
    }
    value
}

/// A flattened device tree whose root node holds the given properties.
fn fdt_blob(props: &[(&str, Vec<u8>)]) -> Vec<u8> {
    let mut strings: Vec<u8> = Vec::new();
    let mut structure: Vec<u8> = Vec::new();
    structure.extend_from_slice(&1u32.to_be_bytes());
    structure.extend_from_slice(&[0, 0, 0, 0]);
    for (name, value) in props {
        let name_off = strings.len() as u32;
        strings.extend_from_slice(name.as_bytes());
        strings.push(0);
        structure.extend_from_slice(&3u32.to_be_bytes());
        structure.extend_from_slice(&(value.len() as u32).to_be_bytes());
        structure.extend_from_slice(&name_off.to_be_bytes());
        structure.extend_from_slice(value);
        pad4(&mut structure);
    }
    structure.extend_from_slice(&2u32.to_be_bytes());
    structure.extend_from_slice(&9u32.to_be_bytes());
    let off_rsv: u32 = 40;
    let off_struct: u32 = off_rsv + 16;
    let off_strings: u32 = off_struct + structure.len() as u32;
    let total: u32 = off_strings + strings.len() as u32;
    let mut blob: Vec<u8> = Vec::new();
    for word in [
        0xd00d_feedu32,
        total,
        off_struct,
        off_strings,
        off_rsv,
        17,
        16,
        0,
        strings.len() as u32,
        structure.len() as u32,
    ] {
        blob.extend_from_slice(&word.to_be_bytes());
    }
    blob.extend_from_slice(&[0u8; 16]);
    blob.extend_from_slice(&structure);
    blob.extend_from_slice(&strings);
    blob
}

#[test]
fn node_name_of_nested_path() {
    let d = record("sub/dir/board.dtb", "Board", &["vendor,board"]);
    assert_eq!(d.node_name(), "sub@dir_board");
}

#[test]
fn node_name_removes_only_first_ext() {
    let d = record("a.dtb/b.dtb", "", &["x"]);
    assert_eq!(d.node_name(), "a@b.dtb");
    let plain = record("top", "", &["x"]);
    assert_eq!(plain.node_name(), "top");
}

#[test]
fn node_names_differ_for_sibling_files() {
    let a = record("a/b.dtb", "", &["x"]);
    let c = record("a/c.dtb", "", &["x"]);
    assert_eq!(a.node_name(), "a@b");
    assert_eq!(c.node_name(), "a@c");
    assert_ne!(a.node_name(), c.node_name());
    assert_eq!(a.node_name(), record("a/b.dtb", "other", &["y"]).node_name());
}

#[test]
fn compatible_is_first_entry() {
    let d = record("a.dtb", "", &["vendor,first", "vendor,second"]);
    assert_eq!(d.compatible(), "vendor,first");
}

#[test]
fn compatibles_source_quotes_and_escapes() {
    let d = record("a.dtb", "", &["vendor,a", "soc\"x"]);
    assert_eq!(d.compatibles_source(), "\"vendor,a\", \"soc\\\"x\"");
    let one = record("a.dtb", "", &["only"]);
    assert_eq!(one.compatibles_source(), "\"only\"");
}

#[test]
fn records_equal_by_path_only() {
    let a = record("a.dtb", "One", &["x"]);
    let b = record("a.dtb", "Two", &["y"]);
    let c = record("c.dtb", "One", &["x"]);
    assert!(a == b);
    assert!(a != c);
}

#[test]
fn new_reads_root_model_and_compatibles() {
    let blob = fdt_blob(&[("model", str_list(&["Test Board"])), ("compatible", str_list(&["vendor,board", "vendor,soc"]))]);
    let d = DtbData::new("/out/dtbs/vendor/board.dtb", "/out/dtbs", &blob).unwrap();
    assert_eq!(d.path, "vendor/board.dtb");
    assert_eq!(d.model, "Test Board");
    assert_eq!(d.compatibles, vec!["vendor,board".to_string(), "vendor,soc".to_string()]);
}

#[test]
fn new_without_model_gives_empty_model() {
    let blob = fdt_blob(&[("compatible", str_list(&["vendor,board"]))]);
    let d = DtbData::new("/r/b.dtb", "/r", &blob).unwrap();
    assert_eq!(d.model, "");
    assert_eq!(d.path, "b.dtb");
}

#[test]
fn new_rejects_path_outside_root() {
    let blob = fdt_blob(&[("compatible", str_list(&["vendor,board"]))]);
    assert_eq!(DtbData::new("/other/b.dtb", "/r", &blob).unwrap_err(), DtbError::OutsideRoot);
}

#[test]
fn new_rejects_malformed_bytes() {
    let bytes = vec![1u8, 2, 3, 4, 5, 6, 7, 8];
    assert_eq!(DtbData::new("/r/b.dtb", "/r", &bytes).unwrap_err(), DtbError::Malformed);
}

#[test]
fn new_rejects_unreadable_compatible() {
    let blob = fdt_blob(&[("model", str_list(&["Bad Compat"])), ("compatible", vec![0xff, 0xfe, 0])]);
    assert_eq!(DtbData::new("/r/b.dtb", "/r", &blob).unwrap_err(), DtbError::NoCompatible);
}

#[test]
fn new_without_compatible_property_gives_one_empty_entry() {
    let blob = fdt_blob(&[("model", str_list(&["No Compat"]))]);
    let d = DtbData::new("/r/b.dtb", "/r", &blob).unwrap();
    assert_eq!(d.compatibles, vec![String::new()]);
}

#[test]
fn str_lt_orders_by_code_point() {
    assert!(str_lt("a", "b"));
    assert!(str_lt("ab", "abc"));
    assert!(!str_lt("abc", "ab"));
    assert!(!str_lt("same", "same"));
    assert!(str_lt("", "x"));
    assert!(str_lt("Z", "a"));
}

#[test]
fn order_by_sorts_indices_by_key() {
    let keys: Vec<String> = vec!["c".into(), "a".into(), "b".into(), "a".into()];
    let order = order_by(&keys);
    assert_eq!(order.len(), 4);
    let sorted: Vec<&str> = order.iter().map(|&i| keys[i].as_str()).collect();
    assert_eq!(sorted, vec!["a", "a", "b", "c"]);
    assert_eq!(order[2], 2);
    assert_eq!(order[3], 0);
}

#[test]
fn split_by_key_partitions_records() {
    let keys: Vec<String> = vec!["x".into(), "dup".into(), "y".into(), "dup".into(), "z".into(), "z".into(), "z".into()];
    let (mut valid, groups) = split_by_key(&keys);
    valid.sort();
    assert_eq!(valid, vec![0, 2]);
    assert_eq!(groups.len(), 2);
    let mut first = groups[0].clone();
    first.sort();
    assert_eq!(first, vec![1, 3]);
    let mut second = groups[1].clone();
    second.sort();
    assert_eq!(second, vec![4, 5, 6]);
    let mut all: Vec<usize> = valid.clone();
    for g in &groups {
        all.extend(g.iter().copied());
    }
    all.sort();
    assert_eq!(all, (0..keys.len()).collect::<Vec<usize>>());
}

#[test]
fn split_by_key_of_nothing() {
    let (valid, groups) = split_by_key(&Vec::new());
    assert!(valid.is_empty());
    assert!(groups.is_empty());
}

#[test]
fn document_without_records() {
    let doc = mapping_document(&Vec::new());
    let expected = format!("{HEADER}/* No warnings during generation */\n\n/ {{\n\tmapping {{\n\t}};\n}};\n");
    assert_eq!(doc, expected);
}

#[test]
fn document_maps_distinct_compatibles_by_path() {
    let data = vec![
        record("b/y.dtb", "Board Y", &["vendor,y"]),
        record("a/x.dtb", "Board X", &["vendor,x", "vendor,soc"]),
    ];
    let doc = mapping_document(&data);
    let expected = format!(
        "{HEADER}/* No warnings during generation */\n\n/ {{\n\tmapping {{\n\
\t\t/* Board X: [\"vendor,x\", \"vendor,soc\"] */\n\
\t\ta@x {{\n\
\t\t\tdtb = \"a/x.dtb\";\n\
\t\t\tmodel = \"Board X\";\n\
\t\t\tcompatible = \"vendor,x\", \"vendor,soc\";\n\
\t\t}};\n\
\t\t/* Board Y: [\"vendor,y\"] */\n\
\t\tb@y {{\n\
\t\t\tdtb = \"b/y.dtb\";\n\
\t\t\tmodel = \"Board Y\";\n\
\t\t\tcompatible = \"vendor,y\";\n\
\t\t}};\n\
\t}};\n}};\n"
    );
    assert_eq!(doc, expected);
}

#[test]
fn document_warns_on_shared_compatible() {
    let data = vec![
        record("one/a.dtb", "A", &["vendor,dup"]),
        record("two/b.dtb", "B", &["vendor,dup", "vendor,other"]),
    ];
    let doc = mapping_document(&data);
    assert!(doc.starts_with(HEADER));
    assert!(doc.contains(" * - vendor,dup\n"));
    assert!(doc.contains(" *     - one/a.dtb\n"));
    assert!(doc.contains(" *     - two/b.dtb\n"));
    assert!(!doc.contains("No warnings"));
    assert!(doc.ends_with("/ {\n\tmapping {\n\t};\n};\n"));
    assert!(!doc.contains("dtb = "));
    assert_eq!(doc.matches(" * - ").count(), 1);
}

#[test]
fn document_lists_groups_by_compatible() {
    let data = vec![
        record("p.dtb", "", &["vendor,zz"]),
        record("q.dtb", "", &["vendor,aa"]),
        record("r.dtb", "", &["vendor,zz"]),
        record("s.dtb", "", &["vendor,aa"]),
        record("t.dtb", "T", &["vendor,mm"]),
    ];
    let doc = mapping_document(&data);
    let warn = "/*\n * WARNING: These dtb files share the main compatible names.\n *          No action has been taken for them.\n";
    assert!(doc.contains(warn));
    let aa = doc.find(" * - vendor,aa").unwrap();
    let zz = doc.find(" * - vendor,zz").unwrap();
    assert!(aa < zz);
    assert!(doc.contains("\t\t\tdtb = \"t.dtb\";\n"));
    assert_eq!(doc.matches("dtb = ").count(), 1);
    assert!(doc.contains(" */\n\n/ {\n"));
}

#[test]
fn join_quoted_separates_neighbours() {
    let parts: Vec<String> = vec!["\"a\"".into(), "\"b\"".into(), "\"c\"".into()];
    assert_eq!(join_quoted(&parts), "\"a\", \"b\", \"c\"");
    assert_eq!(join_quoted(&vec!["x".to_string()]), "x");
    assert_eq!(join_quoted(&Vec::new()), "");
}
