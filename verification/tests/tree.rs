use oxanus::tree::{
    flatten_type_tree, insert_type_tree_entry, split_path, type_tree_parts, type_tree_rows, TypeTreeNode, TypeTreeRow,
};

fn strings(v: &[&str]) -> Vec<String> {
    v.iter().map(|s| s.to_string()).collect()
}

#[test]
fn paths_split_like_str_split() {
    assert_eq!(split_path("a::b::C"), strings(&["a", "b", "C"]));
    assert_eq!(split_path("C"), strings(&["C"]));
    assert_eq!(split_path(""), strings(&[""]));
    assert_eq!(split_path("a:::b"), "a:::b".split("::").map(String::from).collect::<Vec<_>>());
    assert_eq!(split_path("::x::"), "::x::".split("::").map(String::from).collect::<Vec<_>>());
}

#[test]
fn type_names_split_into_groups_and_a_label() {
    assert_eq!(type_tree_parts("app::jobs::mail::SendMail"), (strings(&["app", "jobs"]), "mail::SendMail".to_string()));
    assert_eq!(type_tree_parts("mail::SendMail"), (vec![], "mail::SendMail".to_string()));
    assert_eq!(type_tree_parts("SendMail"), (vec![], "SendMail".to_string()));
}

fn row_text<T: std::fmt::Debug>(row: &TypeTreeRow<T>) -> String {
    match row {
        TypeTreeRow::Group { name, depth } => format!("{depth}:group:{name}"),
        TypeTreeRow::Entry { value, depth } => format!("{depth}:entry:{value:?}"),
    }
}

#[test]
fn tree_rows_list_groups_in_name_order_before_entries() {
    let mut root: TypeTreeNode<u32> = TypeTreeNode::new();
    insert_type_tree_entry(&mut root, &strings(&["b", "x"]), 1);
    insert_type_tree_entry(&mut root, &strings(&["a"]), 2);
    insert_type_tree_entry(&mut root, &vec![], 3);
    insert_type_tree_entry(&mut root, &strings(&["b"]), 4);
    insert_type_tree_entry(&mut root, &strings(&["b", "x"]), 5);
    let rows: Vec<String> = flatten_type_tree(root).iter().map(row_text).collect();
    assert_eq!(
        rows,
        vec![
            "0:group:a",
            "1:entry:2",
            "0:group:b",
            "1:group:x",
            "2:entry:1",
            "2:entry:5",
            "1:entry:4",
            "0:entry:3",
        ]
    );
}

#[test]
fn named_items_are_grouped_by_module() {
    let items = vec![
        ("app::cron::Cleanup".to_string(), 'c'),
        ("Solo".to_string(), 's'),
        ("app::Billing".to_string(), 'b'),
        ("app::cron::Report".to_string(), 'r'),
    ];
    let rows: Vec<String> = type_tree_rows(items).iter().map(row_text).collect();
    assert_eq!(
        rows,
        vec![
            "0:group:app",
            "1:entry:(\"cron::Cleanup\", 'c')",
            "1:entry:(\"cron::Report\", 'r')",
            "0:entry:(\"Solo\", 's')",
            "0:entry:(\"app::Billing\", 'b')",
        ]
    );
}

#[test]
fn every_item_gives_one_entry_row() {
    let items = vec![
        ("a::b::C".to_string(), 1),
        ("a::b::C".to_string(), 1),
        ("D".to_string(), 2),
        ("x::y::z::W".to_string(), 3),
    ];
    let rows = type_tree_rows(items);
    let entries = rows.iter().filter(|row| matches!(row, TypeTreeRow::Entry { .. })).count();
    assert_eq!(entries, 4);
}
