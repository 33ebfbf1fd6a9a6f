use keepass_diff::stack::Stack;
use keepass_diff::string_stack;
use keepass_diff::StringStack;

fn stack_abcd<'a>() -> Stack<&'a str> {
    Stack::empty().append("a").append("b").append("c").append("d")
}

fn static_stack_abcd() -> StringStack {
    StringStack::empty().push("a").push("b").push("c").push("d")
}

fn owned_stack_abcd() -> string_stack::StringStack {
    string_stack::StringStack::empty()
        .push("a".to_owned())
        .push("b".to_owned())
        .push("c".to_owned())
        .push("d".to_owned())
}

#[test]
fn basics() {
    let stack = Stack::empty();

    assert_eq!(stack.head(), None);

    let stack = stack.append("a").append("b").append("c");

    assert_eq!(stack.head(), Some(&"c"));

    let stack = stack.tail();
    assert_eq!(stack.head(), Some(&"b"));
    let stack = stack.tail();
    assert_eq!(stack.head(), Some(&"a"));
    let stack = stack.tail();
    assert_eq!(stack.head(), None);
}

#[test]
fn correct_len() {
    let stack: Stack<&str> = Stack::empty();
    assert_eq!(0, stack.len());

    assert_eq!(2, stack.append("one").append("two").len())
}

#[test]
fn empty_stack() {
    let stack: Stack<&str> = Stack::empty();
    assert_eq!("Stack()", format!("{}", stack.to_string()))
}

#[test]
fn single_element_stack() {
    let stack = Stack::empty().append("hello");
    assert_eq!("Stack(hello)", format!("{}", stack.to_string()))
}

#[test]
fn two_elements_stack() {
    let stack = Stack::empty().append("hello").append("bye");
    assert_eq!("Stack(hello, bye)", format!("{}", stack.to_string()))
}

#[test]
fn mod_shows_its_strings() {
    let stack = stack_abcd();
    assert_eq!("Stack(a, b, c, d)", format!("{}", stack.to_string()));
    let stack = owned_stack_abcd();
    assert_eq!("Stack(a, b, c, d)", format!("{}", stack.to_string()))
}

#[test]
fn mod_mk_string_shows_correct() {
    let stack = stack_abcd();
    assert_eq!(
        "[a, b, c, d]",
        format!("{}", stack.mk_string("[", ", ", "]"))
    );
    let stack = owned_stack_abcd();
    assert_eq!(
        "[a, b, c, d]",
        format!("{}", stack.mk_string("[", ", ", "]"))
    )
}

#[test]
fn mod_sharing_with_immutable_cons_compiles() {
    let stack = owned_stack_abcd();
    let _x = stack.push("100".to_owned());
    let _y = stack.push("200".to_owned());
}

#[test]
fn lib_sharing_with_immutable_cons_compiles() {
    let stack = static_stack_abcd();
    let _x = stack.push("100");
    let _y = stack.push("200");
}

#[test]
fn lib_shows_its_strings() {
    let stack = static_stack_abcd();
    assert_eq!("Stack(a, b, c, d)", format!("{}", stack.to_string()))
}

#[test]
fn lib_mk_string_shows_correct() {
    let stack = static_stack_abcd();
    assert_eq!(
        "[a, b, c, d]",
        format!("{}", stack.mk_string("[", ", ", "]"))
    )
}

#[test]
fn appending_keeps_the_old_stack() {
    let base = Stack::empty().append(1u32).append(2u32);
    let left = base.append(3u32);
    let right = base.append(4u32);
    assert_eq!(base.to_string(), "Stack(1, 2)");
    assert_eq!(left.to_string(), "Stack(1, 2, 3)");
    assert_eq!(right.to_string(), "Stack(1, 2, 4)");
    assert_eq!(Stack::<u32>::empty().tail().len(), 0);
}

#[test]
fn string_stack_head_tail_and_len() {
    let stack = owned_stack_abcd();
    assert_eq!(stack.len(), 4);
    assert_eq!(stack.head(), Some("d".to_owned()));
    assert_eq!(stack.tail().unwrap().head(), Some("c".to_owned()));
    assert!(!stack.is_empty());
    assert!(string_stack::StringStack::empty().is_empty());
    assert_eq!(string_stack::StringStack::empty().tail(), None);
    assert_eq!(string_stack::StringStack::empty().to_string(), "Stack()");

    let stat = static_stack_abcd();
    assert_eq!(stat.head(), Some("d"));
    assert_eq!(stat.tail().unwrap().head(), Some("c"));
    assert!(StringStack::empty().is_empty());
    assert_eq!(StringStack::empty().mk_string("<", "|", ">"), "<>");
    assert_eq!(stat.mk_string("<", "|", ">"), "<a|b|c|d>");
}

#[test]
fn path_writers_follow_append_order() {
    let path = Stack::empty().append("Root".to_owned()).append("Login".to_owned());
    let mut out = String::from("[");
    path.write_separated(&mut out, ", ");
    assert_eq!(out, "[Root, Login, ");
    let mut pad = String::from(">");
    path.write_repeated(&mut pad, "  ");
    assert_eq!(pad, ">    ");
    let mut none = String::new();
    Stack::<String>::empty().write_separated(&mut none, ", ");
    assert_eq!(none, "");
}
