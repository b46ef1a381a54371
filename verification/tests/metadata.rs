use kaze_nhanh::metadata::{choose_eos_token, find_tokenizer_bytes, value_to_bytes, MetaValue};

#[test]
fn find_tokenizer_bytes_reads_string_and_arrays() {
    let json = MetaValue::Text("{\"dummy\":true}".to_string());
    let bytes = find_tokenizer_bytes(Some(&json), None).expect("should extract string bytes");
    assert_eq!(bytes, b"{\"dummy\":true}");

    let tokens = MetaValue::Array(vec![Some(b'a'), Some(b'b'), Some(b'c')]);
    let bytes = find_tokenizer_bytes(None, Some(&tokens)).expect("should read byte array");
    assert_eq!(bytes, b"abc");
}

#[test]
fn arrays_with_other_elements_hold_no_bytes() {
    assert_eq!(value_to_bytes(&MetaValue::Array(vec![Some(1), None])), None);
    assert_eq!(value_to_bytes(&MetaValue::Other), None);
    assert_eq!(value_to_bytes(&MetaValue::Array(vec![])), Some(vec![]));
    let tokens = MetaValue::Array(vec![Some(b'x')]);
    assert_eq!(find_tokenizer_bytes(Some(&MetaValue::Other), Some(&tokens)), Some(vec![b'x']));
    assert_eq!(find_tokenizer_bytes(None, None), None);
}

#[test]
fn end_token_prefers_stored_then_named_then_known() {
    assert_eq!(choose_eos_token(Some(2), Some(3), &vec![Some(4)]), Some(2));
    assert_eq!(choose_eos_token(None, Some(3), &vec![Some(4)]), Some(3));
    assert_eq!(choose_eos_token(None, None, &vec![None, Some(5), Some(6)]), Some(5));
    assert_eq!(choose_eos_token(None, None, &vec![None, None, None]), None);
}
