//! Identifier pasting and case conversion.

use radius_logs::ident::{
    paste_segments, replace_all, to_camel, to_camel_edge, to_lower, to_lower_camel, to_snake,
    to_upper,
};

fn paste(parts: &[&str]) -> String {
    let owned: Vec<String> = parts.iter().map(|p| p.to_string()).collect();
    paste_segments(&owned)
}

#[test]
fn basic_test_to_snake() {
    assert_eq!(to_snake("ThisIsButATest"), "this_is_but_a_test");
    assert_eq!(to_lower(&to_snake("ThisIsButATest")), "this_is_but_a_test");
    assert_eq!(to_upper(&to_snake("ThisIsButATest")), "THIS_IS_BUT_A_TEST");
    assert_eq!(to_snake("This__Is_ButATest"), "this__is_but_a_test");
    assert_eq!(to_lower(&to_snake("This__Is_ButATest")), "this__is_but_a_test");
    assert_eq!(to_upper(&to_snake("This__Is_ButATest")), "THIS__IS_BUT_A_TEST");
}

#[test]
fn basic_test_to_camel() {
    assert_eq!(to_camel("this_is_but_a_test"), "ThisIsButATest");
    assert_eq!(to_lower(&to_camel("this_is_but_a_test")), "thisisbutatest");
    assert_eq!(to_upper(&to_camel("this_is_but_a_test")), "THISISBUTATEST");
    assert_eq!(to_camel("___this_is__but_a____test"), "ThisIsButATest");
    assert_eq!(to_lower(&to_camel("___this_is__but_a____test")), "thisisbutatest");
    assert_eq!(to_upper(&to_camel("___this_is__but_a____test")), "THISISBUTATEST");
}

#[test]
fn test_local_setter() {
    // A setter's name is pasted from a fixed prefix and the field name.
    let name = paste(&["set_", "val"]);
    assert_eq!(name, "set_val");
    let mut val: i32 = 0;
    if name == "set_val" {
        val = 42;
    }
    assert_eq!(val, 42);
}

#[test]
fn test_item_test() {
    // A method name pasted from single-letter segments.
    assert_eq!(paste(&["a", "b", "c"]), "abc");
    // A single already-formed segment passes through unchanged.
    assert_eq!(paste(&["i32x4"]), "i32x4");
}

#[test]
fn test_to_lower() {
    assert_eq!(to_lower("Test"), "test");
    assert_eq!(paste(&["my_", &to_lower("Test"), "_here"]), "my_test_here");
}

#[test]
fn test_to_upper() {
    assert_eq!(to_upper("Test"), "TEST");
    assert_eq!(paste(&["MY_", &to_upper("Test"), "_HERE"]), "MY_TEST_HERE");
}

#[test]
fn test_item_test_to_snake() {
    assert_eq!(to_snake("ThisIsButATest"), "this_is_but_a_test");
    assert_eq!(to_lower(&to_snake("ThisIsButATest")), "this_is_but_a_test");
    assert_eq!(to_upper(&to_snake("ThisIsButATest")), "THIS_IS_BUT_A_TEST");
}

#[test]
fn test_item_test_to_camel() {
    assert_eq!(to_camel("this_is_but_a_test"), "ThisIsButATest");
    assert_eq!(to_lower(&to_camel("this_is_but_a_test")), "thisisbutatest");
    assert_eq!(to_upper(&to_camel("this_is_but_a_test")), "THISISBUTATEST");
}

#[test]
fn test_to_lower_camel() {
    assert_eq!(to_lower_camel("this_is_but_a_test"), "thisIsButATest");
}

#[test]
fn test_to_camel_edge() {
    assert_eq!(to_camel_edge("__this_is_but_a__test"), "__ThisIsButA_Test");
    assert_eq!(to_lower(&to_camel_edge("__this_is_but_a__test")), "__thisisbuta_test");
    assert_eq!(to_upper(&to_camel_edge("__this_is_but_a__test")), "__THISISBUTA_TEST");
}

#[test]
fn test_item_test_replace() {
    // Enum variant names drop a pasted-in prefix from the type names.
    assert_eq!(replace_all("CommandFoo", "Command", ""), "Foo");
    assert_eq!(replace_all("CommandBar", "Command", ""), "Bar");
    assert_eq!(replace_all("HelloWorld", "Hello", ""), "World");
    assert_eq!(replace_all("Hello1234", "1234", ""), "Hello");
}

#[test]
fn test_item_test_fn() {
    // Type names are camel-cased from raw keywords; method names join
    // snake-cased segments with underscores.
    assert_eq!(to_camel("loop"), "Loop");
    assert_eq!(paste(&[&to_camel("loop"), "xyz"]), "Loopxyz");
    assert_eq!(paste(&[&to_snake("loop"), "_", &to_snake("xyz")]), "loop_xyz");
    assert_eq!(to_camel("dyn"), "Dyn");
    assert_eq!(to_camel("unsafe"), "Unsafe");
    assert_eq!(to_snake("welcome"), "welcome");
}
