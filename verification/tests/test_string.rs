use algorithm::utils::string::MyStringExtension;

#[test]
fn test_string_extension_substring_chinese() {
    let txt = "中文测试";
    let txt_string = String::from(txt);
    let sub_str = txt_string.substring(1, 2);
    assert_eq!("文测", sub_str);
}

#[test]
fn test_string_extension_substring_asiic() {
    let txt = "hello";
    let txt_string = String::from(txt);
    let sub_str = txt_string.substring(1, 2);
    assert_eq!("el", sub_str);
}

#[test]
fn test_string_extension_substring_from_the_start() {
    let txt_string = String::from("hello");
    assert_eq!("", txt_string.substring(0, 0));
    assert_eq!("hell", txt_string.substring(0, 4));
    assert_eq!("l", txt_string.substring(3, 1));
}
