use uri_codec::codec::UriError;
use uri_codec::uri::{Context, PropertyAttribute, Uri, UriOp, UriValue};

#[test]
fn handle_uri_no_argument() {
    assert_eq!(Uri::handle_uri(&[], UriOp::Encode), Ok(UriValue::Undefined));
    assert_eq!(Uri::handle_uri(&[], UriOp::Decode), Ok(UriValue::Undefined));
}

#[test]
fn handle_uri_non_text_argument() {
    let args = [UriValue::Undefined];
    assert_eq!(Uri::handle_uri(&args, UriOp::Encode), Ok(UriValue::Undefined));
    assert_eq!(Uri::handle_uri(&args, UriOp::Decode), Ok(UriValue::Undefined));
}

#[test]
fn handle_uri_empty_string() {
    let args = [UriValue::Str(String::new())];
    assert_eq!(
        Uri::handle_uri(&args, UriOp::Encode),
        Ok(UriValue::Str(String::new()))
    );
    assert_eq!(
        Uri::handle_uri(&args, UriOp::Decode),
        Ok(UriValue::Str(String::new()))
    );
}

#[test]
fn handle_uri_encode_text() {
    let args = [UriValue::Str("a b".to_string())];
    assert_eq!(
        Uri::handle_uri(&args, UriOp::Encode),
        Ok(UriValue::Str("a%20b".to_string()))
    );
}

#[test]
fn handle_uri_decode_text() {
    let args = [UriValue::Str("%41".to_string())];
    assert_eq!(
        Uri::handle_uri(&args, UriOp::Decode),
        Ok(UriValue::Str("A".to_string()))
    );
}

#[test]
fn handle_uri_decode_malformed() {
    let args = [UriValue::Str("%G1".to_string())];
    assert_eq!(
        Uri::handle_uri(&args, UriOp::Decode),
        Err(UriError::MalformedEscape)
    );
}

#[test]
fn builtins_round_trip() {
    let mut context = Context::new();
    let args = [UriValue::Str("\u{20ac}".to_string())];
    let encoded = Uri::encode_uri(&UriValue::Undefined, &args, &mut context).unwrap();
    assert_eq!(encoded, UriValue::Str("%E2%82%AC".to_string()));
    let back = Uri::decode_uri(&UriValue::Undefined, &[encoded], &mut context).unwrap();
    assert_eq!(back, UriValue::Str("\u{20ac}".to_string()));
    assert_eq!(context.globals.len(), 0);
}

#[test]
fn init_registers_globals() {
    let mut context = Context::new();
    let (name, value, attribute) = Uri::init(&mut context);
    assert_eq!(name, "Uri");
    assert_eq!(value, UriValue::Undefined);
    assert_eq!(attribute, Uri::attribute());
    assert_eq!(context.globals, vec!["decodeURI", "encodeURI"]);
}

#[test]
fn attribute_flags() {
    let attribute = Uri::attribute();
    assert_eq!(
        attribute,
        PropertyAttribute { writable: true, enumerable: false, configurable: true }
    );
}
