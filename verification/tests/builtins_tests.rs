use formualizer_engine_v2_poc::builtins::address_text;
use formualizer_engine_v2_poc::dependency::normalize_function_name;
use formualizer_engine_v2_poc::formula::ErrorKind;

#[test]
fn function_names_drop_namespaces_and_fold_case() {
    assert_eq!(normalize_function_name("_xlfn.xlookup"), "XLOOKUP");
    assert_eq!(normalize_function_name("sum"), "SUM");
    assert_eq!(normalize_function_name("a.b."), "");
    assert_eq!(normalize_function_name(""), "");
    assert_eq!(normalize_function_name("Index"), "INDEX");
}

#[test]
fn address_text_in_each_style() {
    assert_eq!(address_text(7, 3, 1), Ok("$C$7".to_string()));
    assert_eq!(address_text(7, 3, 2), Ok("C$7".to_string()));
    assert_eq!(address_text(7, 3, 3), Ok("$C7".to_string()));
    assert_eq!(address_text(7, 3, 4), Ok("C7".to_string()));
    assert_eq!(address_text(1, 27, 4), Ok("AA1".to_string()));
    assert_eq!(address_text(120, 702, 1), Ok("$ZZ$120".to_string()));
}

#[test]
fn address_text_refuses_other_styles() {
    assert_eq!(address_text(1, 1, 0), Err(ErrorKind::Value));
    assert_eq!(address_text(1, 1, 5), Err(ErrorKind::Value));
}
