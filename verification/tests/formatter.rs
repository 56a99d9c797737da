use cgen_fmt::Formatter;

#[test]
fn new_formatter_starts_at_depth_zero() {
    let fmt = Formatter::new(String::new());
    assert_eq!(fmt.get_indent(), 0);
    assert_eq!(fmt.dst.as_str(), "");
    assert_eq!(fmt.scope.len(), 0);
}

#[test]
fn single_line_write_gets_depth_spaces_and_no_newline() {
    let mut fmt = Formatter::new(String::new());
    fmt.write_str("hello");
    assert_eq!(fmt.dst.as_str(), "hello");

    let mut fmt = Formatter::new(String::new());
    fmt.indent(|f: &mut Formatter| {
        f.write_str("hello");
    });
    assert_eq!(fmt.dst.as_str(), "    hello");
}

#[test]
fn empty_write_leaves_buffer_alone() {
    let mut fmt = Formatter::new(String::new());
    fmt.indent(|f: &mut Formatter| {
        f.write_str("");
    });
    assert_eq!(fmt.dst.as_str(), "");
}

#[test]
fn multi_line_write_indents_each_line() {
    let mut fmt = Formatter::new(String::new());
    fmt.write_str("a\nb");
    assert_eq!(fmt.dst.as_str(), "a\nb");

    let mut fmt = Formatter::new(String::new());
    fmt.indent(|f: &mut Formatter| {
        f.write_str("a\nb");
    });
    assert_eq!(fmt.dst.as_str(), "    a\n    b");
}

#[test]
fn empty_line_gets_no_spaces_but_next_line_is_indented() {
    let mut fmt = Formatter::new(String::new());
    fmt.indent(|f: &mut Formatter| {
        f.write_str("a\n\nb");
    });
    assert_eq!(fmt.dst.as_str(), "    a\n\n    b");
}

#[test]
fn leading_newline_suppresses_indent_for_that_line_only() {
    let mut fmt = Formatter::new(String::new());
    fmt.indent(|f: &mut Formatter| {
        f.write_str("\nb");
    });
    assert_eq!(fmt.dst.as_str(), "\n    b");
}

#[test]
fn trailing_newline_is_preserved() {
    let mut fmt = Formatter::new(String::new());
    fmt.write_str("a\n");
    fmt.write_str("b");
    assert_eq!(fmt.dst.as_str(), "a\nb");
}

#[test]
fn fragmented_writes_match_one_write() {
    let mut split = Formatter::new(String::new());
    split.indent(|f: &mut Formatter| {
        f.write_str("a");
        f.write_str("\nb");
        f.write_str("c\n");
        f.write_str("d");
    });
    let mut whole = Formatter::new(String::new());
    whole.indent(|f: &mut Formatter| {
        f.write_str("a\nbc\nd");
    });
    assert_eq!(split.dst, whole.dst);
    assert_eq!(split.dst.as_str(), "    a\n    bc\n    d");
}

#[test]
fn write_onto_nonempty_buffer_continues_the_line() {
    let mut fmt = Formatter::new(String::from("int x ="));
    fmt.indent(|f: &mut Formatter| {
        f.write_str(" 1;");
    });
    assert_eq!(fmt.dst.as_str(), "int x = 1;");
}

#[test]
fn depth_is_restored_after_nested_indents() {
    let mut fmt = Formatter::new(String::new());
    assert_eq!(fmt.get_indent(), 0);
    fmt.indent(|f: &mut Formatter| {
        assert_eq!(f.get_indent(), 4);
        f.indent(|g: &mut Formatter| {
            assert_eq!(g.get_indent(), 8);
        });
        assert_eq!(f.get_indent(), 4);
    });
    assert_eq!(fmt.get_indent(), 0);
}

#[test]
fn depth_is_restored_when_the_inner_operation_fails() {
    let mut fmt = Formatter::new(String::new());
    let r: Result<(), i32> = fmt.indent(|_f: &mut Formatter| Err(3));
    assert_eq!(r, Err(3));
    assert_eq!(fmt.get_indent(), 0);
}

#[test]
fn scope_stack_is_restored_after_nested_scopes() {
    let mut fmt = Formatter::new(String::new());
    fmt.scope("Foo", |f: &mut Formatter| {
        assert_eq!(f.scope.len(), 1);
        f.scope("Bar", |g: &mut Formatter| {
            assert_eq!(g.scope.len(), 2);
            assert_eq!(g.scope[0].as_str(), "Foo");
            assert_eq!(g.scope[1].as_str(), "Bar");
        });
        assert_eq!(f.scope.len(), 1);
        assert_eq!(f.scope[0].as_str(), "Foo");
    });
    assert_eq!(fmt.scope.len(), 0);
}

#[test]
fn scope_stack_is_restored_when_the_inner_operation_fails() {
    let mut fmt = Formatter::new(String::new());
    let r: Result<(), ()> = fmt.scope("Foo", |_f: &mut Formatter| Err(()));
    assert_eq!(r, Err(()));
    assert_eq!(fmt.scope.len(), 0);
}

#[test]
fn block_wraps_inner_content_in_braces() {
    let mut fmt = Formatter::new(String::new());
    let r = fmt.block(|f: &mut Formatter| {
        f.write_str("x;\n");
        Ok::<(), ()>(())
    });
    assert!(r.is_ok());
    assert_eq!(fmt.dst.as_str(), "{\n    x;\n}");
}

#[test]
fn block_without_inner_newline_closes_on_the_same_line() {
    let mut fmt = Formatter::new(String::new());
    let r = fmt.block(|f: &mut Formatter| {
        f.write_str("x;");
        Ok::<(), ()>(())
    });
    assert!(r.is_ok());
    assert_eq!(fmt.dst.as_str(), "{\n    x;}");
}

#[test]
fn block_midline_gets_a_separating_space() {
    let mut fmt = Formatter::new(String::new());
    fmt.write_str("int f()");
    let r = fmt.block(|f: &mut Formatter| {
        f.write_str("return 0;\n");
        Ok::<(), ()>(())
    });
    assert!(r.is_ok());
    assert_eq!(fmt.dst.as_str(), "int f() {\n    return 0;\n}");
}

#[test]
fn block_passes_a_failure_through_and_skips_the_closing_brace() {
    let mut fmt = Formatter::new(String::new());
    let r: Result<(), i32> = fmt.block(|_f: &mut Formatter| Err(9));
    assert_eq!(r, Err(9));
    assert_eq!(fmt.get_indent(), 0);
    assert_eq!(fmt.dst.as_str(), "{\n");
}

#[test]
fn nested_blocks_indent_once_per_level() {
    let mut fmt = Formatter::new(String::new());
    let r = fmt.block(|f: &mut Formatter| {
        f.write_str("outer;\n");
        f.block(|g: &mut Formatter| {
            g.write_str("inner;\n");
            Ok::<(), ()>(())
        })?;
        f.write_str("\n");
        Ok::<(), ()>(())
    });
    assert!(r.is_ok());
    assert_eq!(fmt.dst.as_str(), "{\n    outer;\n    {\n        inner;\n    }\n}");
}

#[test]
fn scoped_name_joins_segments_with_double_colons() {
    let mut fmt = Formatter::new(String::new());
    fmt.scope("Foo", |f: &mut Formatter| {
        f.scope("Bar", |g: &mut Formatter| {
            g.write_scoped_name("baz");
        });
    });
    assert_eq!(fmt.dst.as_str(), " Foo::Bar::baz");
}

#[test]
fn scoped_name_with_empty_stack_is_just_the_name() {
    let mut fmt = Formatter::new(String::new());
    fmt.write_scoped_name("baz");
    assert_eq!(fmt.dst.as_str(), " baz");
}

#[test]
fn start_of_line_on_empty_and_newline_terminated_buffers() {
    let fmt = Formatter::new(String::new());
    assert!(fmt.is_start_of_line());

    let fmt = Formatter::new(String::from("a\n"));
    assert!(fmt.is_start_of_line());

    let fmt = Formatter::new(String::from("ab"));
    assert!(!fmt.is_start_of_line());

    let fmt = Formatter::new(String::from("a\nb"));
    assert!(!fmt.is_start_of_line());
}
