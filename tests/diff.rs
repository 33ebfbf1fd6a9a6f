use std::cmp::Ordering;

use keepass_diff::diff::entry::Entry;
use keepass_diff::diff::field::{Field, ValueType};
use keepass_diff::diff::{
    compare_names, diff_entry, diff_hashmap, Diff, DiffDisplay, DiffResult, Group, LineColor, Node,
};

fn field(name: &str, value: &str, kind: ValueType) -> Field {
    Field::new(name.to_owned(), value.to_owned(), kind)
}

fn login(name: &str, title: &str, password: &str) -> Entry {
    let mut e = Entry::new(name.to_owned());
    e.add_field(field("Title", title, ValueType::Unprotected));
    e.add_field(field("Password", password, ValueType::Protected));
    e
}

fn root_with(entries: Vec<Entry>, groups: Vec<Group>) -> Group {
    let mut g = Group::new("Root".to_owned());
    for e in entries {
        g.add_entry(e);
    }
    for c in groups {
        g.add_group(c);
    }
    g
}

fn report(r: DiffResult, use_verbose: bool, mask_passwords: bool) -> String {
    DiffDisplay::new(r, false, use_verbose, mask_passwords).to_string()
}

fn is_identical(r: &DiffResult) -> bool {
    matches!(r, DiffResult::Identical { .. })
}

#[test]
fn diff_empty_groups() {
    let a: Vec<Group> = Vec::new();
    let b: Vec<Group> = Vec::new();
    let (has_differences, _) = diff_hashmap(&a, &b);

    assert!(!has_differences);
}

#[test]
fn changed_password_is_reported_under_its_record() {
    let left = root_with(vec![login("Login", "Site", "p1")], vec![]);
    let right = root_with(vec![login("Login", "Site", "p2")], vec![]);
    let d = left.diff(&right);
    match &d {
        DiffResult::InnerDifferences { left: Node::Group(_), inner_differences, .. } => {
            assert_eq!(inner_differences.len(), 1);
            match &inner_differences[0] {
                DiffResult::InnerDifferences { left: Node::Entry(e), inner_differences, .. } => {
                    assert_eq!(e.name(), "Login");
                    assert_eq!(inner_differences.len(), 2);
                    match &inner_differences[0] {
                        DiffResult::Changed { left: Node::Field(l), right: Node::Field(r) } => {
                            assert_eq!(l.name(), "Password");
                            assert_eq!(l.value(), "p1");
                            assert_eq!(r.value(), "p2");
                        },
                        _ => panic!("expected a changed field"),
                    }
                    assert!(is_identical(&inner_differences[1]));
                },
                _ => panic!("expected differences in the record"),
            }
        },
        _ => panic!("expected differences in the root"),
    }
    assert_eq!(report(d, false, false), "- [Root, Login, p1]\n+ [Root, Login, p2]\n");
}

#[test]
fn group_only_on_the_left_is_one_removal_line() {
    let mut work = Group::new("Work".to_owned());
    work.add_entry(login("Mail", "Mail", "secret"));
    let left = root_with(vec![], vec![work]);
    let right = root_with(vec![], vec![]);
    let d = left.diff(&right);
    match &d {
        DiffResult::InnerDifferences { inner_differences, .. } => {
            assert_eq!(inner_differences.len(), 1);
            match &inner_differences[0] {
                DiffResult::OnlyLeft { left: Node::Group(g) } => assert_eq!(g.name(), "Work"),
                _ => panic!("expected the group only on the left"),
            }
        },
        _ => panic!("expected differences in the root"),
    }
    assert_eq!(report(d, false, false), "- [Root, Work]\n");
}

#[test]
fn empty_roots_are_identical_and_render_nothing() {
    let left = Group::new("Root".to_owned());
    let right = Group::new("Root".to_owned());
    let d = left.diff(&right);
    assert!(is_identical(&d));
    assert_eq!(report(d, false, false), "");
}

#[test]
fn duplicate_names_are_paired_by_position() {
    let left = root_with(vec![login("X", "X", "one"), login("X", "X", "two")], vec![]);
    let right = root_with(vec![login("X", "X", "one")], vec![]);
    let d = left.diff(&right);
    match &d {
        DiffResult::InnerDifferences { inner_differences, .. } => {
            assert_eq!(inner_differences.len(), 2);
            assert!(is_identical(&inner_differences[0]));
            match &inner_differences[1] {
                DiffResult::OnlyLeft { left: Node::Entry(e) } => {
                    assert_eq!(e.fields()[0].value(), "two");
                },
                _ => panic!("expected the second record only on the left"),
            }
        },
        _ => panic!("expected differences in the root"),
    }
}

#[test]
fn comparing_a_tree_with_itself_is_identical() {
    let mut work = Group::new("Work".to_owned());
    work.add_entry(login("Mail", "Mail", "secret"));
    work.add_group(Group::new("Empty".to_owned()));
    let tree = root_with(vec![login("Login", "Site", "p1"), login("Login", "Other", "p3")], vec![work]);
    let d = tree.diff(&tree);
    assert!(is_identical(&d));
    assert_eq!(report(d, true, false), "");
}

#[test]
fn swapping_sides_swaps_labels() {
    let left = root_with(vec![login("A", "A", "1"), login("B", "B", "2")], vec![]);
    let right = root_with(vec![login("B", "B", "3"), login("C", "C", "4")], vec![]);
    assert_eq!(
        report(left.diff(&right), false, false),
        "- [Root, A]\n- [Root, B, 2]\n+ [Root, B, 3]\n+ [Root, C]\n"
    );
    assert_eq!(
        report(right.diff(&left), false, false),
        "+ [Root, A]\n- [Root, B, 3]\n+ [Root, B, 2]\n- [Root, C]\n"
    );
}

#[test]
fn insertion_order_does_not_matter() {
    let a = root_with(
        vec![login("B", "B", "2"), login("A", "A", "1")],
        vec![Group::new("Y".to_owned()), Group::new("X".to_owned())],
    );
    let b = root_with(
        vec![login("A", "A", "1"), login("B", "B", "2")],
        vec![Group::new("X".to_owned()), Group::new("Y".to_owned())],
    );
    assert!(is_identical(&a.diff(&b)));
    let c = root_with(vec![login("C", "C", "3")], vec![Group::new("Z".to_owned())]);
    assert_eq!(report(a.diff(&c), false, false), report(b.diff(&c), false, false));
    assert_eq!(
        report(a.diff(&c), false, false),
        "- [Root, X]\n- [Root, Y]\n+ [Root, Z]\n- [Root, A]\n- [Root, B]\n+ [Root, C]\n"
    );
}

#[test]
fn masking_changes_only_the_text() {
    let left = root_with(vec![login("Login", "Site", "p1")], vec![]);
    let right = root_with(vec![login("Login", "Site", "p2")], vec![]);
    let plain = DiffDisplay::new(left.diff(&right), true, false, false).lines();
    let masked = DiffDisplay::new(left.diff(&right), true, false, true).lines();
    assert_eq!(plain.len(), masked.len());
    for (p, m) in plain.iter().zip(masked.iter()) {
        assert_eq!(p.color, m.color);
    }
    assert_eq!(masked[0].text, "- [Root, Login, ***]\n");
    assert_eq!(masked[1].text, "+ [Root, Login, ***]\n");
    assert_eq!(masked[0].color, Some(LineColor::Removed));
    assert_eq!(masked[1].color, Some(LineColor::Added));
}

#[test]
fn masking_leaves_plain_fields_alone() {
    let a = field("User", "bob", ValueType::Unprotected);
    let b = field("User", "alice", ValueType::Unprotected);
    assert_eq!(report(a.diff(&b), false, true), "- [bob]\n+ [alice]\n");
    assert_eq!(report(a.diff(&b), true, true), "- Field 'User' = 'bob'\n+ Field 'User' = 'alice'\n");
}

#[test]
fn fields_compare_by_value_only() {
    let a = field("A", "same", ValueType::Protected);
    let b = field("B", "same", ValueType::Unprotected);
    assert!(is_identical(&a.diff(&b)));
    let c = field("A", "other", ValueType::Protected);
    assert!(matches!(a.diff(&c), DiffResult::Changed { .. }));
}

#[test]
fn verbose_report_indents_by_depth() {
    let mut lw = Group::new("Work".to_owned());
    lw.add_entry(login("Mail", "Mail", "old"));
    let mut rw = Group::new("Work".to_owned());
    rw.add_entry(login("Mail", "Mail", "new"));
    let left = root_with(vec![], vec![lw]);
    let right = root_with(vec![], vec![rw]);
    let lines = DiffDisplay::new(left.diff(&right), true, true, false).lines();
    let text: Vec<&str> = lines.iter().map(|l| l.text.as_str()).collect();
    assert_eq!(
        text,
        vec![
            "~ Group 'Root'\n",
            "~   Group 'Work'\n",
            "~     Entry 'Mail'\n",
            "-       Field 'Password' = 'old'\n",
            "+       Field 'Password' = 'new'\n",
        ]
    );
    assert_eq!(lines[0].color, Some(LineColor::Changed));
    assert_eq!(lines[3].color, Some(LineColor::Removed));
    assert_eq!(lines[4].color, Some(LineColor::Added));
}

#[test]
fn colors_are_left_out_when_off() {
    let a = field("User", "bob", ValueType::Unprotected);
    let b = field("User", "alice", ValueType::Unprotected);
    let lines = DiffDisplay::new(a.diff(&b), false, false, false).lines();
    assert_eq!(lines.len(), 2);
    assert_eq!(lines[0].color, None);
    assert_eq!(lines[1].color, None);
}

#[test]
fn record_fields_are_merged_by_name() {
    let mut a = Entry::new("E".to_owned());
    a.add_field(field("b", "1", ValueType::Unprotected));
    a.add_field(field("a", "1", ValueType::Unprotected));
    let mut b = Entry::new("E".to_owned());
    b.add_field(field("c", "1", ValueType::Unprotected));
    b.add_field(field("b", "2", ValueType::Unprotected));
    b.add_field(field("b", "1", ValueType::Unprotected));
    let (has_differences, results) = diff_entry(a.fields(), b.fields());
    assert!(has_differences);
    assert_eq!(results.len(), 3);
    assert!(matches!(results[0], DiffResult::OnlyLeft { .. }));
    assert!(is_identical(&results[1]));
    assert!(matches!(results[2], DiffResult::OnlyRight { .. }));
    assert_eq!(b.fields().len(), 2);
}

#[test]
fn binary_fields_hold_unpadded_base64() {
    let f = Field::from_bytes("Attachment".to_owned(), &vec![1u8, 2, 3]);
    assert_eq!(f.value(), "AQID");
    assert_eq!(f.kind(), ValueType::Binary);
    let g = Field::from_bytes("Attachment".to_owned(), &vec![1u8, 2]);
    assert_eq!(g.value(), "AQI");
    assert!(matches!(f.diff(&g), DiffResult::Changed { .. }));
}

#[test]
fn names_order_by_code_points() {
    assert_eq!(compare_names("a", "b"), Ordering::Less);
    assert_eq!(compare_names("b", "a"), Ordering::Greater);
    assert_eq!(compare_names("ab", "a"), Ordering::Greater);
    assert_eq!(compare_names("", "a"), Ordering::Less);
    assert_eq!(compare_names("Z", "a"), Ordering::Less);
    assert_eq!(compare_names("é", "z"), Ordering::Greater);
    assert_eq!(compare_names("same", "same"), Ordering::Equal);
}
