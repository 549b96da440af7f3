//! The commands that the replicated log carries.
use crate::json::{
    json_decode_string, json_decode_u32, json_decode_u64, json_encode_string, json_encode_u32,
    json_encode_u64, json_string_decoding, json_string_encoding, json_u32_decoding,
    json_u64_decoding,
};
use crate::text::decimal_digits;
use vstd::prelude::*;

verus! {

/// A command of the replicated state machine.
///
/// Commands are copied and compared while the protocol runs: a learner counts the
/// votes that each distinct command received, an acceptor hands out copies of what
/// it accepted. The two methods give these operations with their meaning stated:
/// a copy equals the command copied, and two commands compare equal exactly when they
/// are the same value.
pub trait CommandTrait: Sized + Clone + core::fmt::Debug + Eq + core::hash::Hash + Send + Sync {
    /// A copy of the command.
    fn clone_command(&self) -> (r: Self)
        ensures
            r == *self,
    ;

    /// Whether two commands are the same.
    fn same_command(&self, other: &Self) -> (r: bool)
        ensures
            r == (*self == *other),
    ;
}

/// A command that can be written to and read back from durable storage.
pub trait SerializableCommand: Sized {
    /// The bytes that represent the command in storage. A command type verified
    /// here defines it. A type implemented in plain Rust (which must compile
    /// without this function) inherits this default, the empty sequence, which is
    /// not its encoding: for such a type the laws over `encoding` say nothing.
    closed spec fn encoding(&self) -> Seq<u8> {
        Seq::empty()
    }

    /// `r` is what decoding `bytes` gives: the command they represent, or `None`.
    /// A type implemented in plain Rust inherits this default, which relates any
    /// bytes to any result, so `decoding_inverts_encoding` does not hold of it and
    /// no round-trip law applies to it.
    closed spec fn decodes_to(bytes: Seq<u8>, r: Option<Self>) -> bool {
        true
    }

    /// The bytes that represent the command in storage.
    fn encode_command(&self) -> (r: Vec<u8>)
        ensures
            r@ == self.encoding(),
    ;

    /// The command that the bytes represent, if they represent one.
    fn decode_command(bytes: &[u8]) -> (r: Option<Self>)
        ensures
            Self::decodes_to(bytes@, r),
    ;
}

/// Decoding inverts encoding: the stored bytes of a command read back as that
/// command and nothing else.
pub open spec fn decoding_inverts_encoding<C: SerializableCommand>() -> bool {
    forall|c: C, r: Option<C>| #[trigger] C::decodes_to(c.encoding(), r) ==> r == Some(c)
}

/// A stored `u32` command reads back as itself.
pub proof fn lemma_u32_round_trip()
    ensures
        decoding_inverts_encoding::<u32>(),
{
}

/// A stored `u64` command reads back as itself.
pub proof fn lemma_u64_round_trip()
    ensures
        decoding_inverts_encoding::<u64>(),
{
}

/// A stored `String` command reads back as a string with the same characters.
pub proof fn lemma_string_round_trip(c: String, r: Option<String>)
    requires
        String::decodes_to(c.encoding(), r),
    ensures
        r matches Some(s) && s@ == c@,
{
}

impl CommandTrait for u32 {
    fn clone_command(&self) -> (r: Self) {
        *self
    }

    fn same_command(&self, other: &Self) -> (r: bool) {
        *self == *other
    }
}

impl CommandTrait for u64 {
    fn clone_command(&self) -> (r: Self) {
        *self
    }

    fn same_command(&self, other: &Self) -> (r: bool) {
        *self == *other
    }
}

impl CommandTrait for i32 {
    fn clone_command(&self) -> (r: Self) {
        *self
    }

    fn same_command(&self, other: &Self) -> (r: bool) {
        *self == *other
    }
}

impl CommandTrait for i64 {
    fn clone_command(&self) -> (r: Self) {
        *self
    }

    fn same_command(&self, other: &Self) -> (r: bool) {
        *self == *other
    }
}

impl SerializableCommand for u32 {
    /// The JSON text of the number: its decimal digits.
    open spec fn encoding(&self) -> Seq<u8> {
        decimal_digits(*self as nat)
    }

    /// What `serde_json` reads; the digits of a number read back as that number.
    open spec fn decodes_to(bytes: Seq<u8>, r: Option<Self>) -> bool {
        &&& r == json_u32_decoding(bytes)
        &&& forall|v: u32| #[trigger] decimal_digits(v as nat) == bytes ==> r == Some(v)
    }

    fn encode_command(&self) -> (r: Vec<u8>) {
        match json_encode_u32(*self) {
            Ok(bytes) => bytes,
            Err(_) => Vec::new(),
        }
    }

    fn decode_command(bytes: &[u8]) -> (r: Option<Self>) {
        match json_decode_u32(bytes) {
            Ok(v) => Some(v),
            Err(_) => None,
        }
    }
}

impl SerializableCommand for u64 {
    /// The JSON text of the number: its decimal digits.
    open spec fn encoding(&self) -> Seq<u8> {
        decimal_digits(*self as nat)
    }

    /// What `serde_json` reads; the digits of a number read back as that number.
    open spec fn decodes_to(bytes: Seq<u8>, r: Option<Self>) -> bool {
        &&& r == json_u64_decoding(bytes)
        &&& forall|v: u64| #[trigger] decimal_digits(v as nat) == bytes ==> r == Some(v)
    }

    fn encode_command(&self) -> (r: Vec<u8>) {
        match json_encode_u64(*self) {
            Ok(bytes) => bytes,
            Err(_) => Vec::new(),
        }
    }

    fn decode_command(bytes: &[u8]) -> (r: Option<Self>) {
        match json_decode_u64(bytes) {
            Ok(v) => Some(v),
            Err(_) => None,
        }
    }
}

impl SerializableCommand for String {
    /// The JSON text of the string.
    open spec fn encoding(&self) -> Seq<u8> {
        json_string_encoding(self@)
    }

    /// What `serde_json` reads; the JSON text of a string reads back as that string.
    open spec fn decodes_to(bytes: Seq<u8>, r: Option<Self>) -> bool {
        &&& r is Some <==> json_string_decoding(bytes) is Some
        &&& r matches Some(s) ==> json_string_decoding(bytes) == Some(s@)
        &&& forall|t: Seq<char>| #[trigger] json_string_encoding(t) == bytes ==> (r matches Some(s) && s@ == t)
    }

    fn encode_command(&self) -> (r: Vec<u8>) {
        match json_encode_string(self) {
            Ok(bytes) => bytes,
            Err(_) => Vec::new(),
        }
    }

    fn decode_command(bytes: &[u8]) -> (r: Option<Self>) {
        match json_decode_string(bytes) {
            Ok(s) => Some(s),
            Err(_) => None,
        }
    }
}

} // verus!
