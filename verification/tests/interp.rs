use terp::interp::{interpolate, node_rows, parse_interp, InterpError, Never, ParseNode};

fn render(nodes: &[ParseNode<'_>]) -> String {
    let mut out = String::new();
    let mut i = 0usize;
    while i < nodes.len() {
        match nodes[i] {
            ParseNode::Raw(r) => {
                out.push_str(r);
                i += 1;
            }
            ParseNode::RawInterp(r) => {
                out.push_str("%{");
                out.push_str(r);
                out.push_str("}%");
                i += 1;
            }
            ParseNode::EscapedOpen => {
                out.push_str("\\%{");
                i += 1;
            }
            ParseNode::EscapedClose => {
                out.push_str("\\}%");
                i += 1;
            }
            ParseNode::Interp(k) => {
                out.push_str("%{");
                out.push_str(&render(&nodes[i + 1..i + k]));
                out.push_str("}%");
                i += k;
            }
        }
    }
    out
}

fn describe(nodes: &[ParseNode<'_>]) -> Vec<String> {
    nodes
        .iter()
        .map(|n| match n {
            ParseNode::Raw(r) => format!("Raw({})", r),
            ParseNode::RawInterp(r) => format!("RawInterp({})", r),
            ParseNode::EscapedOpen => "EscapedOpen".to_string(),
            ParseNode::EscapedClose => "EscapedClose".to_string(),
            ParseNode::Interp(k) => format!("Interp({})", k),
        })
        .collect()
}

#[test]
fn raw_interp_after_text() {
    let mut out = Vec::new();
    assert!(parse_interp(&mut out, "a%{x}%").is_ok());
    assert_eq!(describe(&out), vec!["Raw(a)", "RawInterp(x)"]);
}

#[test]
fn interp_as_first_node_is_not_raw() {
    let mut out = Vec::new();
    assert!(parse_interp(&mut out, "%{x}%").is_ok());
    assert_eq!(describe(&out), vec!["Interp(2)", "Raw(x)"]);
}

#[test]
fn nested_interpolations() {
    let mut out = Vec::new();
    assert!(parse_interp(&mut out, "%{a%{b}%c}%").is_ok());
    assert_eq!(describe(&out), vec!["Interp(4)", "Raw(a)", "RawInterp(b)", "Raw(c)"]);
}

#[test]
fn escapes_are_nodes() {
    let mut out = Vec::new();
    assert!(parse_interp(&mut out, "\\%{x\\}%").is_ok());
    assert_eq!(describe(&out), vec!["EscapedOpen", "Raw(x)", "EscapedClose"]);
}

#[test]
fn close_without_open() {
    let mut out = Vec::new();
    match parse_interp(&mut out, "ab}%") {
        Err(InterpError::MismatchedClose(2)) => {}
        other => panic!("unexpected {:?}", other),
    }
}

#[test]
fn open_without_close_reports_output_index() {
    let mut out = Vec::new();
    match parse_interp(&mut out, "ab%{cd") {
        Err(InterpError::MismatchedOpen(1)) => {}
        other => panic!("unexpected {:?}", other),
    }
}

#[test]
fn output_is_cleared_first() {
    let mut out = vec![ParseNode::EscapedOpen, ParseNode::EscapedOpen];
    assert!(parse_interp(&mut out, "x").is_ok());
    assert_eq!(describe(&out), vec!["Raw(x)"]);
}

#[test]
fn parse_gives_back_the_format() {
    for src in [
        "plain",
        "a%{x}%b",
        "%{x}%",
        "%{a%{b}%c}%d",
        "x\\%{y\\}%z",
        "%{}%%{}%",
        "%{%{%{deep}%}%}%",
    ] {
        let mut out = Vec::new();
        assert!(parse_interp(&mut out, src).is_ok(), "{}", src);
        assert_eq!(render(&out), src);
    }
}

#[test]
fn interpolate_hands_keys_to_the_interpolator() {
    let mut f = |buf: &mut String, key: &str| -> Result<(), ()> {
        buf.push('<');
        buf.push_str(key);
        buf.push('>');
        Ok(())
    };
    assert_eq!(interpolate("Hello %{name}%!", &mut f).unwrap(), "Hello <name>!");
    assert_eq!(interpolate("%{a%{b}%}%", &mut f).unwrap(), "<a<b>>");
    assert_eq!(interpolate("%{}%", &mut f).unwrap(), "<>");
}

#[test]
fn interpolate_without_interpolation_unescapes() {
    let mut f = |_: &mut String, _: &str| -> Result<(), ()> { Err(()) };
    assert_eq!(interpolate("x \\%{ y \\}%", &mut f).unwrap(), "x %{ y }%");
    assert_eq!(interpolate("", &mut f).unwrap(), "");
}

#[test]
fn interpolate_reports_user_errors() {
    let mut f = |_: &mut String, _: &str| -> Result<(), u32> { Err(7) };
    match interpolate("a%{b}%", &mut f) {
        Err(InterpError::User(7)) => {}
        other => panic!("unexpected {:?}", other),
    }
}

#[test]
fn interpolate_stops_at_the_first_user_error() {
    let mut keys: Vec<String> = Vec::new();
    let mut f = |_: &mut String, k: &str| -> Result<(), i32> {
        keys.push(k.to_string());
        Err(7)
    };
    match interpolate("x%{a}%y%{b}%", &mut f) {
        Err(InterpError::User(7)) => {}
        other => panic!("unexpected {:?}", other),
    }
    assert_eq!(keys, vec!["a".to_string()]);
}

#[test]
fn rewrapping_rebuilds_the_format() {
    let format = "a %{b %{c}% d}% e%{}%f";
    let mut f = |b: &mut String, k: &str| -> Result<(), ()> {
        b.push_str("%{");
        b.push_str(k);
        b.push_str("}%");
        Ok(())
    };
    assert_eq!(interpolate(format, &mut f).unwrap(), format);
}

#[test]
fn interpolate_reports_parse_errors() {
    let mut f = |_: &mut String, _: &str| -> Result<(), u32> { Ok(()) };
    match interpolate("}%", &mut f) {
        Err(InterpError::MismatchedClose(0)) => {}
        other => panic!("unexpected {:?}", other),
    }
    match interpolate("%{", &mut f) {
        Err(InterpError::MismatchedOpen(0)) => {}
        other => panic!("unexpected {:?}", other),
    }
}

#[test]
fn map_helpers() {
    let e: InterpError<Never> = InterpError::MismatchedOpen(3);
    match e.map_user::<u8>() {
        InterpError::MismatchedOpen(3) => {}
        other => panic!("unexpected {:?}", other),
    }
    let r: Result<u8, InterpError<Never>> = Err(InterpError::MismatchedClose(4));
    match InterpError::map_result::<u8, u8>(r) {
        Err(InterpError::MismatchedClose(4)) => {}
        other => panic!("unexpected {:?}", other),
    }
    let ok: Result<u8, InterpError<Never>> = Ok(5);
    assert!(matches!(InterpError::map_result::<u8, u8>(ok), Ok(5)));
    assert!(matches!(InterpError::<u8>::map_e_result::<u8>(Err(9)), Err(InterpError::User(9))));
    assert!(matches!(InterpError::<u8>::map_e_result::<u8>(Ok(1)), Ok(1)));
}

#[test]
fn node_rows_indent_interpolations() {
    let mut nodes = Vec::new();
    parse_interp(&mut nodes, "Hello %{user %{name}%}%!").unwrap();
    let rows = node_rows(&nodes, 0, 2, 0);
    assert_eq!(rows.len(), 4);
    assert!(matches!(rows[0], (0, 0, ParseNode::Raw("Hello "))));
    assert!(matches!(rows[1], (2, 2, ParseNode::Raw("user "))));
    assert!(matches!(rows[2], (2, 3, ParseNode::RawInterp("name"))));
    assert!(matches!(rows[3], (0, 4, ParseNode::Raw("!"))));
}
