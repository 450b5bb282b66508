use astor::{param_count, Method, MAX_PARAMS, METHOD_COUNT};

#[test]
fn static_patterns_have_no_parameters() {
    assert_eq!(param_count(""), 0);
    assert_eq!(param_count("/users"), 0);
    assert_eq!(param_count("/héllo/wörld"), 0);
}

#[test]
fn each_named_parameter_counts() {
    assert_eq!(param_count("/users/{id}"), 1);
    assert_eq!(param_count("/{a}/{b}/{c}"), 3);
    assert_eq!(param_count("/img{id}.png"), 1);
}

#[test]
fn catch_all_does_not_count() {
    assert_eq!(param_count("/files/{*path}"), 0);
    assert_eq!(param_count("/{a}/{*rest}"), 1);
    assert_eq!(param_count("/{{*x}"), 0);
}

#[test]
fn escaped_brace_counts_once() {
    assert_eq!(param_count("/{{literal}}"), 1);
    assert_eq!(param_count("/{{{a}"), 2);
    assert_eq!(param_count("/{a{b}"), 2);
}

#[test]
fn parameter_limit() {
    assert_eq!(MAX_PARAMS, 25);
}

#[test]
fn method_positions_are_distinct() {
    let all = [
        Method::Connect, Method::Delete, Method::Get, Method::Head, Method::Options,
        Method::Patch, Method::Post, Method::Put, Method::Trace, Method::Copy, Method::Lock,
        Method::Mkcalendar, Method::Mkcol, Method::Move, Method::Propfind, Method::Proppatch,
        Method::Report, Method::Search, Method::Unlock, Method::Purge,
    ];
    let mut seen = vec![false; METHOD_COUNT];
    for m in all.iter() {
        let i = m.index();
        assert!(i < METHOD_COUNT);
        assert!(!seen[i]);
        seen[i] = true;
    }
}
