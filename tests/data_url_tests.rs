use pim_core::data_url::{extract_base64_data, extract_info_field, get_image_mime_type};

#[test]
fn mime_type_of_data_urls() {
    assert_eq!(get_image_mime_type("data:image/png;base64,iVBOR"), "image/png");
    assert_eq!(get_image_mime_type("data:image/webp;base64,"), "image/webp");
    assert_eq!(get_image_mime_type("https://x/y.png"), "image/jpeg");
    assert_eq!(get_image_mime_type("data:image/png,raw"), "image/jpeg");
}

#[test]
fn payload_of_data_urls() {
    assert_eq!(extract_base64_data("data:image/png;base64,iVBOR"), "iVBOR");
    assert_eq!(extract_base64_data("plainbase64"), "plainbase64");
    assert_eq!(extract_base64_data("x;base64,a;base64,b"), "a;base64,b");
}

#[test]
fn labelled_fields() {
    let info = "作者: 刘慈欣\n出版社: 重庆出版社\nISBN: 9787536692930\n页数:  \n";
    assert_eq!(extract_info_field(info, "作者:"), Some("刘慈欣".to_string()));
    assert_eq!(extract_info_field(info, "出版社:"), Some("重庆出版社".to_string()));
    assert_eq!(extract_info_field(info, "ISBN:"), Some("9787536692930".to_string()));
    assert_eq!(extract_info_field(info, "页数:"), None);
    assert_eq!(extract_info_field(info, "定价:"), None);
    assert_eq!(extract_info_field("a: x a: y", "a:"), Some("x".to_string()));
}
