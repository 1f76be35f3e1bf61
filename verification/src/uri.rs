//! The host-facing entry points around the codec: the dispatcher that the
//! two global functions share, and the registration of those functions with
//! the host context.
//!
//! The host runtime itself is out of scope; this module models exactly what
//! the library touches of it.  A call argument is either text or the
//! undefined sentinel, and the context is the registry of global property
//! names.

use crate::codec::{decode, decode_uri_chars, encode, encode_uri_chars, UriError};
use vstd::prelude::*;
use vstd::slice::slice_index_get;
use vstd::string::StringExecFns;

verus! {

/// A call argument or result as the host hands it over: text, or the
/// undefined sentinel standing for an absent or non-textual value.
#[derive(Debug, PartialEq, Eq)]
pub enum UriValue {
    Undefined,
    Str(String),
}

/// Which of the two global operations was invoked.
#[derive(Clone, Copy, Debug, PartialEq, Eq, Structural)]
pub enum UriOp {
    Encode,
    Decode,
}

/// The attributes under which a global property is registered.
#[derive(Clone, Copy, Debug, PartialEq, Eq, Structural)]
pub struct PropertyAttribute {
    pub writable: bool,
    pub enumerable: bool,
    pub configurable: bool,
}

/// The host context, as far as this library touches it: the registry of
/// global property names, in order of registration.
pub struct Context {
    pub globals: Vec<String>,
}

impl Context {
    /// An empty registry.
    pub fn new() -> (c: Context)
        ensures
            c.globals@.len() == 0,
    {
        Context { globals: Vec::new() }
    }

    /// Registers one global property name.
    pub fn register_global_property(&mut self, name: String)
        ensures
            final(self).globals@ == old(self).globals@.push(name),
    {
        self.globals.push(name);
    }
}

/// What the dispatcher answers for an argument list: the undefined sentinel
/// for an absent or non-textual first argument, the empty string unchanged
/// without invoking either transform, and otherwise the outcome of the
/// requested transform on the argument's text.
pub open spec fn uri_dispatch(args: Seq<UriValue>, op: UriOp, r: Result<
    UriValue,
    UriError,
>) -> bool {
    &&& ((args.len() == 0 || args[0] is Undefined) ==> r == Ok::<UriValue, UriError>(
        UriValue::Undefined,
    ))
    &&& ((args.len() > 0 && args[0] is Str) ==> ({
        let t = args[0]->Str_0@;
        &&& (t.len() == 0 ==> (r is Ok && r->Ok_0 is Str && r->Ok_0->Str_0@ == Seq::<
            char,
        >::empty()))
        &&& ((t.len() > 0 && op is Encode) ==> (r is Ok && r->Ok_0 is Str && r->Ok_0->Str_0@
            == encode_uri_chars(t)))
        &&& ((t.len() > 0 && op is Decode) ==> {
            &&& (r is Ok <==> decode_uri_chars(t) is Some)
            &&& (r is Ok ==> (r->Ok_0 is Str && r->Ok_0->Str_0@ == decode_uri_chars(t)->Some_0))
            &&& (r is Err ==> r->Err_0 == UriError::MalformedEscape)
        })
    }))
}

/// The two global URI functions as one builtin: their registration and their
/// shared dispatch over the call arguments.
#[derive(Debug, Clone, Copy)]
pub struct Uri;

impl Uri {
    /// The attributes under which the host registers this builtin: writable
    /// and configurable, not enumerable.
    pub fn attribute() -> (r: PropertyAttribute)
        ensures
            r == (PropertyAttribute { writable: true, enumerable: false, configurable: true }),
    {
        PropertyAttribute { writable: true, enumerable: false, configurable: true }
    }

    /// Registers the two global function names with the host context and
    /// returns the builtin's name, initial value and attributes.
    pub fn init(context: &mut Context) -> (r: (&'static str, UriValue, PropertyAttribute))
        ensures
            final(context).globals@.len() == old(context).globals@.len() + 2,
            final(context).globals@[old(context).globals@.len() as int]@ == "decodeURI"@,
            final(context).globals@[old(context).globals@.len() as int + 1]@ == "encodeURI"@,
            forall|i: int|
                0 <= i < old(context).globals@.len() ==> final(context).globals@[i] == old(
                    context,
                ).globals@[i],
            r.0@ == "Uri"@,
            r.1 is Undefined,
            r.2 == (PropertyAttribute { writable: true, enumerable: false, configurable: true }),
    {
        let decode_name = String::from_str("decodeURI");
        let encode_name = String::from_str("encodeURI");
        context.register_global_property(decode_name);
        context.register_global_property(encode_name);
        ("Uri", UriValue::Undefined, Self::attribute())
    }

    /// Dispatches one call: an absent or non-textual first argument yields
    /// the undefined sentinel, the empty string returns immediately, and any
    /// other text goes to the requested transform.
    pub fn handle_uri(args: &[UriValue], op: UriOp) -> (r: Result<UriValue, UriError>)
        ensures
            uri_dispatch(args@, op, r),
    {
        if args.len() == 0 {
            return Ok(UriValue::Undefined);
        }
        match slice_index_get(args, 0) {
            UriValue::Undefined => Ok(UriValue::Undefined),
            UriValue::Str(t) => {
                if t.as_str().is_empty() {
                    Ok(UriValue::Str(String::new()))
                } else {
                    match op {
                        UriOp::Encode => Ok(UriValue::Str(encode(t.as_str()))),
                        UriOp::Decode => match decode(t.as_str()) {
                            Ok(d) => Ok(UriValue::Str(d)),
                            Err(e) => Err(e),
                        },
                    }
                }
            },
        }
    }

    /// The `encodeURI` builtin: dispatches the call arguments to encoding.
    /// The receiver and the context play no part.
    pub fn encode_uri(_this: &UriValue, args: &[UriValue], context: &mut Context) -> (r: Result<
        UriValue,
        UriError,
    >)
        ensures
            uri_dispatch(args@, UriOp::Encode, r),
            final(context).globals@ == old(context).globals@,
    {
        Self::handle_uri(args, UriOp::Encode)
    }

    /// The `decodeURI` builtin: dispatches the call arguments to decoding.
    /// The receiver and the context play no part.
    pub fn decode_uri(_this: &UriValue, args: &[UriValue], context: &mut Context) -> (r: Result<
        UriValue,
        UriError,
    >)
        ensures
            uri_dispatch(args@, UriOp::Decode, r),
            final(context).globals@ == old(context).globals@,
    {
        Self::handle_uri(args, UriOp::Decode)
    }
}

} // verus!
