use uxnasm::assembler::uxn_macro::UxnMacro;
use uxnasm::assembler::uxn_macro::UxnMacroErr;

#[test]
fn mac_test() {
    let mac = vec!["[", "beans", "]", "{", "ins", "ins2", "}"];
    println!("{:?}", UxnMacro::new(&mac).unwrap());
    let mac = vec!["{", "ins", "ins2", "}"];
    println!("{:?}", UxnMacro::new(&mac).unwrap())
}

#[test]
fn macro_expand_gives_body() {
    let mac = vec!["[", "beans", "]", "{", "ins", "ins2", "}"];
    let m = UxnMacro::new(&mac).unwrap();
    assert_eq!(m.expand(&[]), vec!["ins".to_string(), "ins2".to_string()]);
    let mac = vec!["{", "ins", "}"];
    let m = UxnMacro::new(&mac).unwrap();
    assert_eq!(m.expand(&["ignored"]), vec!["ins".to_string()]);
}

#[test]
fn macro_empty_body() {
    let mac = vec!["{", "}"];
    let m = UxnMacro::new(&mac).unwrap();
    assert!(m.expand(&[]).is_empty());
}

#[test]
fn macro_body_stops_at_first_close() {
    let mac = vec!["{", "a", "}", "b", "}"];
    let m = UxnMacro::new(&mac).unwrap();
    assert_eq!(m.expand(&[]), vec!["a".to_string()]);
}

#[test]
fn macro_args_without_end() {
    let mac = vec!["[", "a", "b", "}"];
    assert_eq!(UxnMacro::new(&mac).unwrap_err(), UxnMacroErr::NoArgEndDelim);
}

#[test]
fn macro_without_body() {
    let mac = vec!["x", "y", "}"];
    assert_eq!(UxnMacro::new(&mac).unwrap_err(), UxnMacroErr::NoBody);
    let mac = vec!["[", "a", "]", "x", "}"];
    assert_eq!(UxnMacro::new(&mac).unwrap_err(), UxnMacroErr::NoBody);
    let mac = vec!["}"];
    assert_eq!(UxnMacro::new(&mac).unwrap_err(), UxnMacroErr::NoBody);
}
