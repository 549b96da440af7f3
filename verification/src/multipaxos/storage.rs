//! Durable state of Multi-Paxos: the acceptor state of every instance, and the log
//! of applied commands, kept in a generic `Storage` backend.
//!
//! Keys and values:
//! * `acceptor/{instance}/ballot` holds the promised ballot, as JSON;
//! * `acceptor/{instance}/accepted` holds the accepted proposal as the JSON
//!   object `{"ballot":<ballot>,"command":<command>}`, the command in its own
//!   (JSON) encoding;
//! * `log/{instance}` holds the command applied at that instance, the instance
//!   written with twenty digits so that the keys sort in instance order;
//! * `meta/last_applied` holds, as JSON, the number of applied instances.
use crate::commands::{decoding_inverts_encoding, SerializableCommand};
use crate::errors::{error_from_json, error_with_message};
use crate::json::{json_decode_u32, json_decode_u64, json_encode_u32, json_encode_u64, json_u32_decoding, json_u64_decoding};
use crate::multipaxos::Ballot;
use crate::storage::{entries_map, entries_of, is_prefix, lex_lt, lex_lt_from, sorted_keys, Storage};
use crate::text::{decimal_digits, parse_u64_range, parse_u64_spec, u64_to_decimal, u64_to_zero_padded, zero_padded};
use vstd::prelude::*;

verus! {

/// Persisted acceptor state for a single Paxos instance.
#[derive(Debug, Clone)]
pub struct AcceptorState<C> {
    pub max_ballot: Ballot,
    pub max_accepted: Option<AcceptedValue<C>>,
}

/// A persisted accepted proposal.
#[derive(Debug, Clone)]
pub struct AcceptedValue<C> {
    pub ballot: Ballot,
    pub command: C,
}

/// A save made through `PaxosStorage`.
pub enum PersistEvent<C> {
    Promise { instance_id: u64, ballot: Ballot },
    Accept { instance_id: u64, ballot: Ballot, command: C },
}

/// `acceptor/`
pub open spec fn acceptor_prefix_spec() -> Seq<u8> {
    seq![97u8, 99u8, 99u8, 101u8, 112u8, 116u8, 111u8, 114u8, 47u8]
}

/// `/ballot`
pub open spec fn ballot_suffix_spec() -> Seq<u8> {
    seq![47u8, 98u8, 97u8, 108u8, 108u8, 111u8, 116u8]
}

/// `/accepted`
pub open spec fn accepted_suffix_spec() -> Seq<u8> {
    seq![47u8, 97u8, 99u8, 99u8, 101u8, 112u8, 116u8, 101u8, 100u8]
}

/// `log/`
pub open spec fn log_prefix_spec() -> Seq<u8> {
    seq![108u8, 111u8, 103u8, 47u8]
}

/// `meta/last_applied`
pub open spec fn last_applied_key_spec() -> Seq<u8> {
    seq![109u8, 101u8, 116u8, 97u8, 47u8, 108u8, 97u8, 115u8, 116u8, 95u8, 97u8, 112u8, 112u8, 108u8, 105u8, 101u8, 100u8]
}

/// The key of the promised ballot of an instance.
pub open spec fn promise_key_spec(instance_id: u64) -> Seq<u8> {
    acceptor_prefix_spec() + decimal_digits(instance_id as nat) + ballot_suffix_spec()
}

/// The key of the accepted proposal of an instance.
pub open spec fn accepted_key_spec(instance_id: u64) -> Seq<u8> {
    acceptor_prefix_spec() + decimal_digits(instance_id as nat) + accepted_suffix_spec()
}

/// The key of the command applied at an instance.
pub open spec fn log_key_spec(instance_id: u64) -> Seq<u8> {
    log_prefix_spec() + zero_padded(instance_id as nat, 20)
}

/// `{"ballot":`, the start of a stored accepted proposal.
pub open spec fn record_head_spec() -> Seq<u8> {
    seq![123u8, 34u8, 98u8, 97u8, 108u8, 108u8, 111u8, 116u8, 34u8, 58u8]
}

/// `,"command":`, which separates the ballot from the command.
pub open spec fn record_mid_spec() -> Seq<u8> {
    seq![44u8, 34u8, 99u8, 111u8, 109u8, 109u8, 97u8, 110u8, 100u8, 34u8, 58u8]
}

/// The stored form of an accepted proposal: the JSON object
/// `{"ballot":<ballot>,"command":<command>}`, as `serde_json` writes it.
pub open spec fn accepted_record_spec(ballot: Ballot, command: Seq<u8>) -> Seq<u8> {
    record_head_spec() + decimal_digits(ballot as nat) + record_mid_spec() + command + seq![125u8]
}

/// The position of the first comma in `s` after the head, if any.
pub open spec fn first_comma(s: Seq<u8>) -> Option<int> {
    if exists|i: int| 10 <= i < s.len() && s[i] == 44u8 {
        Some(choose|i: int| 10 <= i < s.len() && s[i] == 44u8 && forall|j: int| 10 <= j < i ==> s[j] != 44u8)
    } else {
        None
    }
}

/// The ballot and command bytes that a stored accepted proposal holds: after the
/// head, the ballot runs to the first comma, which starts `,"command":`; the
/// command runs from there to the closing brace at the end.
pub open spec fn accepted_record_parse(s: Seq<u8>) -> Option<(Ballot, Seq<u8>)> {
    if s.len() < 22 || s.subrange(0, 10) != record_head_spec() || s[s.len() - 1] != 125u8 {
        None
    } else {
        match first_comma(s) {
            Some(i) => if i + 11 <= s.len() - 1 && s.subrange(i, i + 11) == record_mid_spec() {
                match stored_u32(s.subrange(10, i)) {
                    Some(b) => Some((b, s.subrange(i + 11, s.len() - 1))),
                    None => None,
                }
            } else {
                None
            },
            None => None,
        }
    }
}

/// The position of the first `/` in `s` at or after `from`, or the length of `s`.
pub open spec fn next_slash(s: Seq<u8>, from: int) -> int
    decreases s.len() - from,
{
    if from < 0 || from >= s.len() {
        s.len() as int
    } else if s[from] == 47u8 {
        from
    } else {
        next_slash(s, from + 1)
    }
}

/// The instance that a key under `acceptor/` names: the key is valid UTF-8, split at
/// `/`, and its second part reads as a `u64`.
pub open spec fn instance_id_of_key_spec(key: Seq<u8>) -> Option<u64> {
    let first = next_slash(key, 0);
    if !vstd::utf8::valid_utf8(key) || first >= key.len() {
        None
    } else {
        parse_u64_spec(key.subrange(first + 1, next_slash(key, first + 1)))
    }
}

/// The instance that a command-log key names: the key is `log/` and a `u64`.
pub open spec fn log_id_of_key_spec(key: Seq<u8>) -> Option<u64> {
    if key.len() >= 4 && key.subrange(0, 4) == log_prefix_spec() {
        parse_u64_spec(key.subrange(4, key.len() as int))
    } else {
        None
    }
}

/// `s` strictly increases.
pub open spec fn strictly_increasing(s: Seq<u64>) -> bool {
    forall|i: int, j: int| 0 <= i < j < s.len() ==> s[i] < s[j]
}

/// The 32-bit number that stored bytes hold: the decimal digits of a number hold
/// that number (as `serde_json` reads them); other bytes hold what `serde_json`
/// reads from them, if anything.
pub open spec fn stored_u32(bytes: Seq<u8>) -> Option<u32> {
    if exists|v: u32| bytes == decimal_digits(v as nat) {
        Some(choose|v: u32| bytes == decimal_digits(v as nat))
    } else {
        json_u32_decoding(bytes)
    }
}

/// The 64-bit number that stored bytes hold, as for [`stored_u32`].
pub open spec fn stored_u64(bytes: Seq<u8>) -> Option<u64> {
    if exists|v: u64| bytes == decimal_digits(v as nat) {
        Some(choose|v: u64| bytes == decimal_digits(v as nat))
    } else {
        json_u64_decoding(bytes)
    }
}

/// Distinct numbers have distinct digits.
pub proof fn lemma_digits_injective(a: nat, b: nat)
    requires
        decimal_digits(a) == decimal_digits(b),
    ensures
        a == b,
{
    crate::text::lemma_decimal_digits_value(a);
    crate::text::lemma_decimal_digits_value(b);
}

/// The stored digits of a number hold that number.
pub proof fn lemma_stored_digits(v32: u32, v64: u64)
    ensures
        stored_u32(decimal_digits(v32 as nat)) == Some(v32),
        stored_u64(decimal_digits(v64 as nat)) == Some(v64),
{
    let w32 = choose|v: u32| decimal_digits(v32 as nat) == decimal_digits(v as nat);
    lemma_digits_injective(v32 as nat, w32 as nat);
    let w64 = choose|v: u64| decimal_digits(v64 as nat) == decimal_digits(v as nat);
    lemma_digits_injective(v64 as nat, w64 as nat);
}

/// Reads a stored 32-bit number.
fn decode_u32(bytes: &[u8]) -> (r: core::result::Result<u32, serde_json::Error>)
    ensures
        r is Ok <==> stored_u32(bytes@) is Some,
        r is Ok ==> stored_u32(bytes@) == Some(r.unwrap()),
{
    let r = json_decode_u32(bytes);
    proof {
        if exists|v: u32| bytes@ == decimal_digits(v as nat) {
            let v = choose|v: u32| bytes@ == decimal_digits(v as nat);
            lemma_stored_digits(v, 0);
        }
    }
    r
}

/// Reads a stored 64-bit number.
fn decode_u64(bytes: &[u8]) -> (r: core::result::Result<u64, serde_json::Error>)
    ensures
        r is Ok <==> stored_u64(bytes@) is Some,
        r is Ok ==> stored_u64(bytes@) == Some(r.unwrap()),
{
    let r = json_decode_u64(bytes);
    proof {
        if exists|v: u64| bytes@ == decimal_digits(v as nat) {
            let v = choose|v: u64| bytes@ == decimal_digits(v as nat);
            lemma_stored_digits(0, v);
        }
    }
    r
}

/// Appends the bytes of `s` to `v`.
fn append_bytes(v: &mut Vec<u8>, s: &[u8])
    ensures
        final(v)@ == old(v)@ + s@,
{
    let mut i: usize = 0;
    while i < s.len()
        invariant
            i <= s@.len(),
            v@ == old(v)@ + s@.subrange(0, i as int),
        decreases s.len() - i,
    {
        v.push(s[i]);
        assert(old(v)@ + s@.subrange(0, i + 1) =~= old(v)@ + s@.subrange(0, i as int) + seq![s@[i as int]]);
        i = i + 1;
    }
    assert(s@.subrange(0, s@.len() as int) =~= s@);
}

/// `std::str::from_utf8(bytes).is_ok()`: whether the bytes are valid UTF-8, which is
/// what `from_utf8` checks.
#[verifier::external_body]
fn is_valid_utf8(bytes: &[u8]) -> (r: bool)
    ensures
        r == vstd::utf8::valid_utf8(bytes@),
{
    std::str::from_utf8(bytes).is_ok()
}

/// The key of the promised ballot of an instance.
pub fn promise_key(instance_id: u64) -> (r: Vec<u8>)
    ensures
        r@ == promise_key_spec(instance_id),
{
    let mut v: Vec<u8> = Vec::new();
    let p: [u8; 9] = [97, 99, 99, 101, 112, 116, 111, 114, 47];
    append_bytes(&mut v, &p);
    let d = u64_to_decimal(instance_id);
    append_bytes(&mut v, d.as_slice());
    let s: [u8; 7] = [47, 98, 97, 108, 108, 111, 116];
    append_bytes(&mut v, &s);
    assert(p@ =~= acceptor_prefix_spec());
    assert(s@ =~= ballot_suffix_spec());
    v
}

/// The key of the accepted proposal of an instance.
pub fn accepted_key(instance_id: u64) -> (r: Vec<u8>)
    ensures
        r@ == accepted_key_spec(instance_id),
{
    let mut v: Vec<u8> = Vec::new();
    let p: [u8; 9] = [97, 99, 99, 101, 112, 116, 111, 114, 47];
    append_bytes(&mut v, &p);
    let d = u64_to_decimal(instance_id);
    append_bytes(&mut v, d.as_slice());
    let s: [u8; 9] = [47, 97, 99, 99, 101, 112, 116, 101, 100];
    append_bytes(&mut v, &s);
    assert(p@ =~= acceptor_prefix_spec());
    assert(s@ =~= accepted_suffix_spec());
    v
}

/// `acceptor/`, the prefix of every acceptor key.
pub fn acceptor_prefix() -> (r: Vec<u8>)
    ensures
        r@ == acceptor_prefix_spec(),
{
    let mut v: Vec<u8> = Vec::new();
    let p: [u8; 9] = [97, 99, 99, 101, 112, 116, 111, 114, 47];
    append_bytes(&mut v, &p);
    assert(p@ =~= acceptor_prefix_spec());
    v
}

/// `log/`, the prefix of every command-log key.
pub fn log_prefix() -> (r: Vec<u8>)
    ensures
        r@ == log_prefix_spec(),
{
    let mut v: Vec<u8> = Vec::new();
    let p: [u8; 4] = [108, 111, 103, 47];
    append_bytes(&mut v, &p);
    assert(p@ =~= log_prefix_spec());
    v
}

/// The key of the command applied at an instance.
pub fn log_key(instance_id: u64) -> (r: Vec<u8>)
    ensures
        r@ == log_key_spec(instance_id),
{
    let mut v = log_prefix();
    let d = u64_to_zero_padded(instance_id, 20);
    append_bytes(&mut v, d.as_slice());
    v
}

/// `meta/last_applied`.
pub fn last_applied_key() -> (r: Vec<u8>)
    ensures
        r@ == last_applied_key_spec(),
{
    let mut v: Vec<u8> = Vec::new();
    let p: [u8; 17] = [109, 101, 116, 97, 47, 108, 97, 115, 116, 95, 97, 112, 112, 108, 105, 101, 100];
    append_bytes(&mut v, &p);
    assert(p@ =~= last_applied_key_spec());
    v
}

/// The promised ballot's stored form.
pub fn encode_ballot(ballot: Ballot) -> (r: Vec<u8>)
    ensures
        r@ == decimal_digits(ballot as nat),
{
    match json_encode_u32(ballot) {
        Ok(b) => b,
        Err(_) => Vec::new(),
    }
}

/// The stored form of an accepted proposal.
pub fn encode_accepted_record(ballot: Ballot, command: &[u8]) -> (r: Vec<u8>)
    ensures
        r@ == accepted_record_spec(ballot, command@),
{
    let mut v: Vec<u8> = Vec::new();
    let head: [u8; 10] = [123, 34, 98, 97, 108, 108, 111, 116, 34, 58];
    append_bytes(&mut v, &head);
    let digits: Vec<u8> = match json_encode_u32(ballot) {
        Ok(b) => b,
        Err(_) => Vec::new(),
    };
    append_bytes(&mut v, digits.as_slice());
    let mid: [u8; 11] = [44, 34, 99, 111, 109, 109, 97, 110, 100, 34, 58];
    append_bytes(&mut v, &mid);
    append_bytes(&mut v, command);
    v.push(125u8);
    assert(head@ =~= record_head_spec());
    assert(mid@ =~= record_mid_spec());
    assert(v@ =~= accepted_record_spec(ballot, command@));
    v
}

/// Whether `s` holds the bytes of `pat` from position `at` on.
fn bytes_at(s: &[u8], at: usize, pat: &[u8]) -> (r: bool)
    ensures
        r == (at + pat@.len() <= s@.len() && s@.subrange(at as int, at + pat@.len()) == pat@),
{
    if at > s.len() || pat.len() > s.len() - at {
        return false;
    }
    let mut k: usize = 0;
    let mut p: usize = at;
    while k < pat.len()
        invariant
            at + pat@.len() <= s@.len(),
            k <= pat@.len(),
            p == at + k,
            forall|j: int| 0 <= j < k ==> s@[at + j] == pat@[j],
        decreases pat.len() - k,
    {
        if s[p] != pat[k] {
            assert(s@.subrange(at as int, at + pat@.len())[k as int] != pat@[k as int]);
            return false;
        }
        k = k + 1;
        p = p + 1;
    }
    assert(s@.subrange(at as int, at + pat@.len()) =~= pat@);
    true
}

/// The bytes of `s` from `from` up to `to`.
fn copy_range(s: &[u8], from: usize, to: usize) -> (r: Vec<u8>)
    requires
        from <= to <= s@.len(),
    ensures
        r@ == s@.subrange(from as int, to as int),
{
    let mut out: Vec<u8> = Vec::new();
    let mut k: usize = from;
    while k < to
        invariant
            from <= k <= to <= s@.len(),
            out@ == s@.subrange(from as int, k as int),
        decreases to - k,
    {
        out.push(s[k]);
        assert(s@.subrange(from as int, k + 1) =~= s@.subrange(from as int, k as int).push(s@[k as int]));
        k = k + 1;
    }
    out
}

/// The ballot and command bytes of a stored accepted proposal.
pub fn decode_accepted_record(record: &[u8]) -> (r: Option<(Ballot, Vec<u8>)>)
    ensures
        match r {
            Some((b, c)) => accepted_record_parse(record@) == Some((b, c@)),
            None => accepted_record_parse(record@) is None,
        },
        forall|b: Ballot, c: Seq<u8>| #[trigger] accepted_record_spec(b, c) == record@ ==> (r is Some
            && r.unwrap().0 == b && r.unwrap().1@ == c),
{
    proof {
        assert forall|b: Ballot, c: Seq<u8>| #[trigger] accepted_record_spec(b, c) == record@ implies accepted_record_parse(
            record@,
        ) == Some((b, c)) by {
            lemma_record_parse(b, c);
        }
    }
    let head: [u8; 10] = [123, 34, 98, 97, 108, 108, 111, 116, 34, 58];
    let mid: [u8; 11] = [44, 34, 99, 111, 109, 109, 97, 110, 100, 34, 58];
    assert(head@ =~= record_head_spec());
    assert(mid@ =~= record_mid_spec());
    let n = record.len();
    if n < 22 || !bytes_at(record, 0, &head) || record[n - 1] != 125u8 {
        return None;
    }
    let mut i: usize = 10;
    while i < n && record[i] != 44u8
        invariant
            10 <= i <= n,
            n == record@.len(),
            forall|j: int| 10 <= j < i ==> record@[j] != 44u8,
        decreases n - i,
    {
        i = i + 1;
    }
    if i == n {
        assert(first_comma(record@) is None);
        return None;
    }
    proof {
        let k = choose|k: int| 10 <= k < record@.len() && record@[k] == 44u8 && forall|j: int| 10 <= j < k ==> record@[j] != 44u8;
        if k < i {
        } else if k > i {
            assert(record@[i as int] != 44u8);
        }
        assert(first_comma(record@) == Some(i as int));
    }
    if i > n - 12 || !bytes_at(record, i, &mid) {
        return None;
    }
    let ballot_bytes = copy_range(record, 10, i);
    match decode_u32(ballot_bytes.as_slice()) {
        Ok(b) => {
            let cmd = copy_range(record, i + 11, n - 1);
            Some((b, cmd))
        },
        Err(_) => None,
    }
}

/// The instance that a key under `acceptor/` names, if any.
pub fn instance_id_of_key(key: &[u8]) -> (r: Option<u64>)
    ensures
        r == instance_id_of_key_spec(key@),
{
    if !is_valid_utf8(key) {
        return None;
    }
    let first = find_slash(key, 0);
    if first >= key.len() {
        return None;
    }
    let second = find_slash(key, first + 1);
    parse_u64_range(key, first + 1, second)
}

/// The position of the first `/` at or after `from`, or the length.
fn find_slash(s: &[u8], from: usize) -> (r: usize)
    requires
        from <= s@.len(),
    ensures
        r as int == next_slash(s@, from as int),
        from <= r <= s@.len(),
{
    let mut i = from;
    while i < s.len()
        invariant
            from <= i <= s@.len(),
            next_slash(s@, from as int) == next_slash(s@, i as int),
        decreases s.len() - i,
    {
        if s[i] == 47u8 {
            return i;
        }
        i = i + 1;
    }
    i
}

/// The instance that a command-log key names, if any.
pub fn log_id_of_key(key: &[u8]) -> (r: Option<u64>)
    ensures
        r == log_id_of_key_spec(key@),
{
    if key.len() < 4 || key[0] != 108u8 || key[1] != 111u8 || key[2] != 103u8 || key[3] != 47u8 {
        proof {
            if key@.len() >= 4 && key@.subrange(0, 4) == log_prefix_spec() {
                assert(key@[0] == key@.subrange(0, 4)[0]);
                assert(key@[1] == key@.subrange(0, 4)[1]);
                assert(key@[2] == key@.subrange(0, 4)[2]);
                assert(key@[3] == key@.subrange(0, 4)[3]);
            }
        }
        return None;
    }
    assert(key@.subrange(0, 4) =~= log_prefix_spec());
    parse_u64_range(key, 4, key.len())
}

/// The record of an instance's acceptor state that two stored values represent:
/// `None` when a value does not decode; `Some(None)` when no ballot is stored;
/// otherwise the promised ballot and, when stored, the accepted ballot and command
/// bytes.
pub open spec fn acceptor_record_spec(ballot_value: Option<Seq<u8>>, accepted_value: Option<Seq<u8>>) -> Option<
    Option<(Ballot, Option<(Ballot, Seq<u8>)>)>,
> {
    match ballot_value {
        None => Some(None),
        Some(bv) => match stored_u32(bv) {
            None => None,
            Some(b) => match accepted_value {
                None => Some(Some((b, None))),
                Some(av) => match accepted_record_parse(av) {
                    None => None,
                    Some((ab, cmd)) => Some(Some((b, Some((ab, cmd))))),
                },
            },
        },
    }
}

/// The view of an acceptor record.
pub open spec fn record_view(r: Option<(Ballot, Option<(Ballot, Vec<u8>)>)>) -> Option<
    (Ballot, Option<(Ballot, Seq<u8>)>),
> {
    match r {
        None => None,
        Some((b, None)) => Some((b, None)),
        Some((b, Some((ab, c)))) => Some((b, Some((ab, c@)))),
    }
}

/// The number of applied instances that the stored value represents (zero when
/// none is stored), or `None` when the value does not decode.
pub open spec fn last_applied_spec(value: Option<Seq<u8>>) -> Option<u64> {
    match value {
        None => Some(0),
        Some(v) => stored_u64(v),
    }
}

/// The view of an optional byte slice.
pub open spec fn opt_bytes_view(o: Option<&[u8]>) -> Option<Seq<u8>> {
    match o {
        Some(v) => Some(v@),
        None => None,
    }
}

/// The distinct values of `ids`, in increasing order.
pub fn sorted_distinct(ids: &Vec<u64>) -> (r: Vec<u64>)
    ensures
        strictly_increasing(r@),
        forall|x: u64| r@.contains(x) <==> ids@.contains(x),
{
    let mut out: Vec<u64> = Vec::new();
    let mut i: usize = 0;
    while i < ids.len()
        invariant
            i <= ids@.len(),
            strictly_increasing(out@),
            forall|x: u64| out@.contains(x) <==> ids@.subrange(0, i as int).contains(x),
        decreases ids.len() - i,
    {
        let x = ids[i];
        let mut pos: usize = 0;
        while pos < out.len() && out[pos] < x
            invariant
                pos <= out@.len(),
                strictly_increasing(out@),
                forall|j: int| 0 <= j < pos ==> out@[j] < x,
            decreases out.len() - pos,
        {
            pos = pos + 1;
        }
        let ghost before = out@;
        let ghost pre1 = ids@.subrange(0, i + 1);
        let ghost pre0 = ids@.subrange(0, i as int);
        proof {
            assert(pre1 =~= pre0.push(x));
            assert forall|y: u64| pre1.contains(y) <==> (pre0.contains(y) || y == x) by {
                if pre1.contains(y) {
                    let k = choose|k: int| 0 <= k < pre1.len() && pre1[k] == y;
                    if k < i {
                        assert(pre0[k] == y);
                    }
                }
                if pre0.contains(y) {
                    let k = choose|k: int| 0 <= k < pre0.len() && pre0[k] == y;
                    assert(pre1[k] == y);
                }
                assert(pre1[i as int] == x);
            }
        }
        if pos < out.len() && out[pos] == x {
            assert(out@[pos as int] == x);
            assert(before.contains(x));
            assert forall|y: u64| out@.contains(y) <==> pre1.contains(y) by {
                if y == x {
                    assert(pre1.contains(x));
                }
            }
        } else {
            out.insert(pos, x);
            proof {
                assert(out@ =~= before.insert(pos as int, x));
                assert forall|a: int, b: int| 0 <= a < b < out@.len() implies out@[a] < out@[b] by {
                    if b < pos {
                        assert(out@[a] == before[a] && out@[b] == before[b]);
                    } else if b == pos {
                        assert(out@[a] == before[a]);
                    } else if a == pos {
                        assert(out@[b] == before[b - 1]);
                        assert(before[pos as int] > x || before[pos as int] == x);
                        assert(before[pos as int] != x);
                    } else if a < pos {
                        assert(out@[a] == before[a] && out@[b] == before[b - 1]);
                        assert(before[pos as int] > x);
                    } else {
                        assert(out@[a] == before[a - 1] && out@[b] == before[b - 1]);
                    }
                }
                assert forall|y: u64| out@.contains(y) <==> (before.contains(y) || y == x) by {
                    if out@.contains(y) {
                        let k = choose|k: int| 0 <= k < out@.len() && out@[k] == y;
                        if k < pos {
                            assert(before[k] == y);
                        } else if k > pos {
                            assert(before[k - 1] == y);
                        }
                    }
                    if before.contains(y) {
                        let k = choose|k: int| 0 <= k < before.len() && before[k] == y;
                        if k < pos {
                            assert(out@[k] == y);
                        } else {
                            assert(out@[k + 1] == y);
                        }
                    }
                    assert(out@[pos as int] == x);
                }
                assert(out@[pos as int] == x);
                assert(out@.contains(x));
                assert forall|y: u64| out@.contains(y) <==> pre1.contains(y) by {
                    assert(out@.contains(y) <==> (before.contains(y) || y == x));
                    assert(before.contains(y) <==> pre0.contains(y));
                    assert(pre1.contains(y) <==> (pre0.contains(y) || y == x));
                }
            }
        }
        i = i + 1;
    }
    assert(ids@.subrange(0, ids@.len() as int) =~= ids@);
    out
}

/// The instances that the keys of `entries` name, each once, in increasing order.
pub fn instance_ids(entries: &Vec<(Vec<u8>, Vec<u8>)>) -> (r: Vec<u64>)
    ensures
        strictly_increasing(r@),
        forall|x: u64| r@.contains(x) <==> exists|j: int|
            0 <= j < entries@.len() && instance_id_of_key_spec(#[trigger] entries_of(entries@)[j].0) == Some(x),
{
    let ghost es = entries_of(entries@);
    let mut ids: Vec<u64> = Vec::new();
    let mut i: usize = 0;
    while i < entries.len()
        invariant
            i <= entries@.len(),
            es == entries_of(entries@),
            forall|x: u64| ids@.contains(x) ==> exists|j: int| 0 <= j < i && instance_id_of_key_spec(
                #[trigger] es[j].0,
            ) == Some(x),
            forall|j: int| 0 <= j < i ==> ((#[trigger] instance_id_of_key_spec(es[j].0)) matches Some(x)
                ==> ids@.contains(x)),
        decreases entries.len() - i,
    {
        let ghost before = ids@;
        match instance_id_of_key(entries[i].0.as_slice()) {
            Some(id) => {
                ids.push(id);
                proof {
                    assert(ids@[before.len() as int] == id);
                    assert(instance_id_of_key_spec(es[i as int].0) == Some(id));
                    assert forall|x: u64| ids@.contains(x) implies exists|j: int|
                        0 <= j < i + 1 && instance_id_of_key_spec(#[trigger] es[j].0) == Some(x) by {
                        let a = choose|a: int| 0 <= a < ids@.len() && ids@[a] == x;
                        if a < before.len() {
                            assert(before[a] == x);
                            assert(before.contains(x));
                        }
                    }
                    assert forall|j: int| 0 <= j < i + 1 implies ((#[trigger] instance_id_of_key_spec(
                        es[j].0,
                    )) matches Some(x) ==> ids@.contains(x)) by {
                        if j < i {
                            if let Some(x) = instance_id_of_key_spec(es[j].0) {
                                let a = choose|a: int| 0 <= a < before.len() && before[a] == x;
                                assert(ids@[a] == x);
                            }
                        }
                    }
                }
            },
            None => {},
        }
        i = i + 1;
    }
    sorted_distinct(&ids)
}

/// The acceptor state that a stored record and the decoding of its command give:
/// `st` is the state of the record, with the command that the stored bytes decode to.
pub open spec fn state_of_record<C: SerializableCommand>(
    rec: Option<(Ballot, Option<(Ballot, Seq<u8>)>)>,
    st: Option<AcceptorState<C>>,
) -> bool {
    match (rec, st) {
        (None, None) => true,
        (Some((b, None)), Some(s)) => s.max_ballot == b && s.max_accepted is None,
        (Some((b, Some((ab, bytes)))), Some(s)) => {
            &&& s.max_ballot == b
            &&& s.max_accepted matches Some(v)
            &&& v.ballot == ab
            &&& C::decodes_to(bytes, Some(v.command))
        },
        _ => false,
    }
}

/// The acceptor record of instance `instance_id` in the map `stored`.
pub open spec fn stored_record(stored: Map<Seq<u8>, Seq<u8>>, instance_id: u64) -> Option<
    Option<(Ballot, Option<(Ballot, Seq<u8>)>)>,
> {
    acceptor_record_spec(stored.get(promise_key_spec(instance_id)), stored.get(accepted_key_spec(instance_id)))
}

/// The keys of `stored` under `prefix`, with their values, in increasing key order.
pub open spec fn sorted_entries_of(
    es: Seq<(Seq<u8>, Seq<u8>)>,
    stored: Map<Seq<u8>, Seq<u8>>,
    prefix: Seq<u8>,
) -> bool {
    &&& sorted_keys(es)
    &&& entries_map(es) == stored.restrict(stored.dom().filter(|k: Seq<u8>| is_prefix(prefix, k)))
}

/// The stored map after a save of `e` succeeded.
pub open spec fn stored_after_event<C: SerializableCommand>(
    stored: Map<Seq<u8>, Seq<u8>>,
    e: Option<PersistEvent<C>>,
) -> Map<Seq<u8>, Seq<u8>> {
    match e {
        None => stored,
        Some(PersistEvent::Promise { instance_id, ballot }) => stored.insert(
            promise_key_spec(instance_id),
            decimal_digits(ballot as nat),
        ),
        Some(PersistEvent::Accept { instance_id, ballot, command }) => stored.insert(
            promise_key_spec(instance_id),
            decimal_digits(ballot as nat),
        ).insert(accepted_key_spec(instance_id), accepted_record_spec(ballot, command.encoding())),
    }
}

/// Paxos-aware storage layer over a generic `Storage` backend.
pub struct PaxosStorage<C> {
    storage: Box<dyn Storage>,
    /// Every save requested through this value, in order.
    saved: Ghost<Seq<PersistEvent<C>>>,
    /// For each save requested, whether it succeeded.
    outcomes: Ghost<Seq<bool>>,
}

impl<C> PaxosStorage<C> {
    /// Every save requested through this value, in order.
    pub closed spec fn saved(&self) -> Seq<PersistEvent<C>> {
        self.saved@
    }

    /// For each save requested through this value, in order, whether it succeeded.
    pub closed spec fn outcomes(&self) -> Seq<bool> {
        self.outcomes@
    }

    /// The map that the backend holds.
    pub closed spec fn stored(&self) -> Map<Seq<u8>, Seq<u8>> {
        self.storage.stored()
    }
}

impl<C: SerializableCommand> PaxosStorage<C> {
    pub fn new(storage: Box<dyn Storage>) -> (r: Self)
        ensures
            r.saved() == Seq::<PersistEvent<C>>::empty(),
            r.outcomes() == Seq::<bool>::empty(),
            r.stored() == storage.stored(),
    {
        let mut r = Self {
            storage: Box::new(crate::storage::InMemoryStorage::new()),
            saved: Ghost(Seq::empty()),
            outcomes: Ghost(Seq::empty()),
        };
        // The backend is moved in by a swap: Verus keeps track of a swapped
        // `Box<dyn Storage>`, not of one written into a field directly.
        let mut backend = storage;
        core::mem::swap(&mut r.storage, &mut backend);
        r
    }

    /// Writes the promised ballot of an instance.
    fn put_promise(&mut self, instance_id: u64, ballot: Ballot) -> (r: crate::Result<()>)
        ensures
            final(self).saved() == old(self).saved(),
            final(self).outcomes() == old(self).outcomes(),
            r is Ok ==> final(self).stored() == old(self).stored().insert(
                promise_key_spec(instance_id),
                decimal_digits(ballot as nat),
            ),
    {
        let key = promise_key(instance_id);
        let value = encode_ballot(ballot);
        self.storage.put(key.as_slice(), value.as_slice())
    }

    /// Saves that the acceptor of an instance promised `ballot`.
    pub fn save_promise(&mut self, instance_id: u64, ballot: Ballot) -> (r: crate::Result<()>)
        ensures
            final(self).saved() == old(self).saved().push(PersistEvent::Promise { instance_id, ballot }),
            final(self).outcomes() == old(self).outcomes().push(r is Ok),
            r is Ok ==> final(self).stored() == old(self).stored().insert(
                promise_key_spec(instance_id),
                decimal_digits(ballot as nat),
            ),
    {
        self.saved = Ghost(self.saved@.push(PersistEvent::Promise { instance_id, ballot }));
        let r = self.put_promise(instance_id, ballot);
        self.outcomes = Ghost(self.outcomes@.push(r is Ok));
        r
    }

    /// Saves that the acceptor of an instance accepted `cmd` in `ballot` (which it
    /// thereby also promised): first the ballot, then, if that write succeeded,
    /// the accepted proposal.
    pub fn save_accept(&mut self, instance_id: u64, ballot: Ballot, cmd: &C) -> (r: crate::Result<()>)
        ensures
            final(self).saved() == old(self).saved().push(
                PersistEvent::Accept { instance_id, ballot, command: *cmd },
            ),
            final(self).outcomes() == old(self).outcomes().push(r is Ok),
            r is Ok ==> final(self).stored() == old(self).stored().insert(
                promise_key_spec(instance_id),
                decimal_digits(ballot as nat),
            ).insert(accepted_key_spec(instance_id), accepted_record_spec(ballot, cmd.encoding())),
    {
        self.saved = Ghost(self.saved@.push(PersistEvent::Accept { instance_id, ballot, command: *cmd }));
        let r = match self.put_promise(instance_id, ballot) {
            Ok(()) => {
                let key = accepted_key(instance_id);
                let encoded = cmd.encode_command();
                let value = encode_accepted_record(ballot, encoded.as_slice());
                self.storage.put(key.as_slice(), value.as_slice())
            },
            Err(e) => Err(e),
        };
        self.outcomes = Ghost(self.outcomes@.push(r is Ok));
        r
    }

    /// The ballot that a stored ballot value holds; an error when it holds none.
    pub fn ballot_from_value(value: &[u8]) -> (r: crate::Result<Ballot>)
        ensures
            r is Ok <==> stored_u32(value@) is Some,
            r is Ok ==> stored_u32(value@) == Some(r.unwrap()),
    {
        match decode_u32(value) {
            Ok(b) => Ok(b),
            Err(e) => Err(error_from_json(e)),
        }
    }

    /// The acceptor record of an instance whose promised ballot is `max_ballot`
    /// and whose stored accepted proposal, if any, is `accepted_value`; an error
    /// when that proposal does not parse.
    pub fn record_with_accepted(max_ballot: Ballot, accepted_value: Option<&[u8]>) -> (r: crate::Result<
        Option<(Ballot, Option<(Ballot, Vec<u8>)>)>,
    >)
        ensures
            r is Ok <==> (accepted_value matches Some(av) ==> accepted_record_parse(av@) is Some),
            r is Ok ==> record_view(r.unwrap()) == Some(
                (
                    max_ballot,
                    match accepted_value {
                        None => None,
                        Some(av) => accepted_record_parse(av@),
                    },
                ),
            ),
    {
        match accepted_value {
            Some(av) => match decode_accepted_record(av) {
                Some((ab, cmd)) => Ok(Some((max_ballot, Some((ab, cmd))))),
                None => Err(error_with_message("invalid accepted record")),
            },
            None => Ok(Some((max_ballot, None))),
        }
    }

    /// Reads the stored acceptor record of an instance: the promised ballot and, if
    /// stored, the accepted ballot and command bytes. `Ok(None)` when no ballot is
    /// stored; an error when the backend fails or a stored value does not decode.
    pub fn load_acceptor_record(&self, instance_id: u64) -> (r: crate::Result<
        Option<(Ballot, Option<(Ballot, Vec<u8>)>)>,
    >)
        ensures
            r is Ok ==> stored_record(self.stored(), instance_id) == Some(record_view(r.unwrap())),
            stored_record(self.stored(), instance_id) is None ==> r is Err,
    {
        let ballot_key = promise_key(instance_id);
        let ballot_bytes = match self.storage.get(ballot_key.as_slice())? {
            Some(b) => b,
            None => {
                return Ok(None);
            },
        };
        let max_ballot = Self::ballot_from_value(ballot_bytes.as_slice())?;
        let accepted_key = accepted_key(instance_id);
        match self.storage.get(accepted_key.as_slice())? {
            Some(av) => Self::record_with_accepted(max_ballot, Some(av.as_slice())),
            None => Self::record_with_accepted(max_ballot, None),
        }
    }

    /// The acceptor state that a stored record gives: none for no record, the
    /// promised ballot alone, or with the accepted ballot and the command that the
    /// stored bytes decode to; an error when those bytes do not decode.
    pub fn state_from_record(record: Option<(Ballot, Option<(Ballot, Vec<u8>)>)>) -> (r: crate::Result<
        Option<AcceptorState<C>>,
    >)
        ensures
            r is Ok ==> state_of_record(record_view(record), r.unwrap()),
            r is Err ==> (record matches Some((_, Some((_, bytes)))) && C::decodes_to(bytes@, None)),
    {
        match record {
            None => Ok(None),
            Some((max_ballot, None)) => Ok(Some(AcceptorState { max_ballot, max_accepted: None })),
            Some((max_ballot, Some((ballot, bytes)))) => match C::decode_command(bytes.as_slice()) {
                Some(command) => Ok(
                    Some(AcceptorState { max_ballot, max_accepted: Some(AcceptedValue { ballot, command }) }),
                ),
                None => Err(error_with_message("invalid stored command")),
            },
        }
    }

    /// Reads the stored acceptor state of an instance; `Ok(None)` when none is
    /// stored. The stored command is read back through the command's own decoding.
    pub fn load_acceptor_state(&self, instance_id: u64) -> (r: crate::Result<Option<AcceptorState<C>>>)
        ensures
            r is Ok ==> stored_record(self.stored(), instance_id) is Some && state_of_record(
                stored_record(self.stored(), instance_id).unwrap(),
                r.unwrap(),
            ),
            stored_record(self.stored(), instance_id) is None ==> r is Err,
    {
        let record = self.load_acceptor_record(instance_id)?;
        Self::state_from_record(record)
    }

    /// Reads the acceptor state of every instance that has a stored ballot, in
    /// increasing order of instance.
    pub fn load_all_acceptor_states(&self) -> (r: crate::Result<Vec<(u64, AcceptorState<C>)>>)
        ensures
            r is Ok ==> forall|i: int, j: int| 0 <= i < j < r.unwrap()@.len() ==> r.unwrap()@[i].0 < r.unwrap()@[j].0,
            r is Ok ==> forall|i: int| 0 <= i < r.unwrap()@.len() ==> {
                &&& stored_record(self.stored(), (#[trigger] r.unwrap()@[i]).0) is Some
                &&& state_of_record(stored_record(self.stored(), r.unwrap()@[i].0).unwrap(), Some(r.unwrap()@[i].1))
            },
            r is Ok ==> forall|id: u64| #[trigger] self.stored().contains_key(promise_key_spec(id)) ==> exists|i: int|
                0 <= i < r.unwrap()@.len() && r.unwrap()@[i].0 == id,
    {
        let prefix = acceptor_prefix();
        let entries = self.storage.scan_prefix(prefix.as_slice())?;
        let ghost es = entries_of(entries@);
        proof {
            self.lemma_promise_keys_listed(es);
        }
        let ids = instance_ids(&entries);
        let mut result: Vec<(u64, AcceptorState<C>)> = Vec::new();
        let mut k: usize = 0;
        while k < ids.len()
            invariant
                k <= ids@.len(),
                strictly_increasing(ids@),
                k < ids@.len() ==> forall|a: int| 0 <= a < result@.len() ==> #[trigger] result@[a].0 < ids@[k as int],
                forall|a: int, b: int| 0 <= a < b < result@.len() ==> result@[a].0 < result@[b].0,
                forall|a: int| 0 <= a < result@.len() ==> {
                    &&& stored_record(self.stored(), (#[trigger] result@[a]).0) is Some
                    &&& state_of_record(stored_record(self.stored(), result@[a].0).unwrap(), Some(result@[a].1))
                },
                forall|a: int| 0 <= a < k ==> #[trigger] self.stored().contains_key(promise_key_spec(ids@[a]))
                    ==> exists|b: int| 0 <= b < result@.len() && result@[b].0 == ids@[a],
            decreases ids.len() - k,
        {
            let id = ids[k];
            let ghost before = result@;
            if let Some(state) = self.load_acceptor_state(id)? {
                result.push((id, state));
                assert(result@[before.len() as int].0 == id);
            } else {
                assert(!self.stored().contains_key(promise_key_spec(id)));
            }
            proof {
                if k + 1 < ids@.len() {
                    assert(ids@[k as int] < ids@[k + 1]);
                }
                assert forall|a: int| 0 <= a < k + 1 && #[trigger] self.stored().contains_key(
                    promise_key_spec(ids@[a]),
                ) implies exists|b: int| 0 <= b < result@.len() && result@[b].0 == ids@[a] by {
                    if a < k {
                        let b = choose|b: int| 0 <= b < before.len() && before[b].0 == ids@[a];
                        assert(result@[b] == before[b]);
                    } else {
                        assert(result@[before.len() as int].0 == ids@[a]);
                    }
                }
            }
            k = k + 1;
        }
        proof {
            assert forall|id: u64| #[trigger] self.stored().contains_key(promise_key_spec(id)) implies exists|i: int|
                0 <= i < result@.len() && result@[i].0 == id by {
                let j = choose|j: int| 0 <= j < es.len() && instance_id_of_key_spec(es[j].0) == Some(id);
                assert(ids@.contains(id));
                let a = choose|a: int| 0 <= a < ids@.len() && ids@[a] == id;
            }
        }
        Ok(result)
    }

    /// Every stored ballot key is among the scanned entries under `acceptor/`, and
    /// names its instance.
    proof fn lemma_promise_keys_listed(&self, es: Seq<(Seq<u8>, Seq<u8>)>)
        requires
            sorted_entries_of(es, self.stored(), acceptor_prefix_spec()),
        ensures
            forall|id: u64| #[trigger] self.stored().contains_key(promise_key_spec(id)) ==> exists|j: int|
                0 <= j < es.len() && instance_id_of_key_spec(es[j].0) == Some(id),
    {
        assert forall|id: u64| #[trigger] self.stored().contains_key(promise_key_spec(id)) implies exists|j: int|
            0 <= j < es.len() && instance_id_of_key_spec(es[j].0) == Some(id) by {
            let k = promise_key_spec(id);
            lemma_promise_key_parts(id);
            assert(entries_map(es).contains_key(k));
            let j = choose|j: int| 0 <= j < es.len() && es[j].0 == k;
        }
    }
}

/// The ballot key of an instance starts with `acceptor/` and names the instance.
pub proof fn lemma_promise_key_parts(id: u64)
    ensures
        is_prefix(acceptor_prefix_spec(), promise_key_spec(id)),
        instance_id_of_key_spec(promise_key_spec(id)) == Some(id),
{
    let k = promise_key_spec(id);
    let d = decimal_digits(id as nat);
    crate::text::lemma_decimal_digits_value(id as nat);
    assert(k.subrange(0, 9) =~= acceptor_prefix_spec());
    assert(next_slash(k, 0) == 8) by {
        reveal_with_fuel(next_slash, 10);
    }
    assert forall|i: int| 9 <= i < 9 + d.len() implies k[i] != 47u8 by {
        assert(k[i] == d[i - 9]);
        assert(crate::text::is_digit(d[i - 9]));
    }
    let e: int = 9 + d.len() as int;
    lemma_next_slash_skips(k, 9, e);
    assert(k[e] == 47u8);
    assert(k.subrange(9, e) =~= d);
    assert forall|i: int| 0 <= i < k.len() implies k[i] < 128 by {
        if 9 <= i < 9 + d.len() {
            assert(k[i] == d[i - 9]);
            assert(crate::text::is_digit(d[i - 9]));
        }
    }
    lemma_ascii_valid_utf8(k);
    crate::text::lemma_parse_digits(id);
}

/// The accepted key of an instance names the instance too.
pub proof fn lemma_accepted_key_parts(id: u64)
    ensures
        is_prefix(acceptor_prefix_spec(), accepted_key_spec(id)),
        instance_id_of_key_spec(accepted_key_spec(id)) == Some(id),
{
    let k = accepted_key_spec(id);
    let d = decimal_digits(id as nat);
    crate::text::lemma_decimal_digits_value(id as nat);
    assert(k.subrange(0, 9) =~= acceptor_prefix_spec());
    assert(next_slash(k, 0) == 8) by {
        reveal_with_fuel(next_slash, 10);
    }
    assert forall|i: int| 9 <= i < 9 + d.len() implies k[i] != 47u8 by {
        assert(k[i] == d[i - 9]);
        assert(crate::text::is_digit(d[i - 9]));
    }
    let e: int = 9 + d.len() as int;
    lemma_next_slash_skips(k, 9, e);
    assert(k[e] == 47u8);
    assert(k.subrange(9, e) =~= d);
    assert forall|i: int| 0 <= i < k.len() implies k[i] < 128 by {
        if 9 <= i < 9 + d.len() {
            assert(k[i] == d[i - 9]);
            assert(crate::text::is_digit(d[i - 9]));
        }
    }
    lemma_ascii_valid_utf8(k);
    crate::text::lemma_parse_digits(id);
}

/// The keys of the acceptor state are distinct: a ballot key is never an accepted
/// key, and distinct instances have distinct keys.
pub proof fn lemma_acceptor_keys_distinct(i: u64, j: u64)
    ensures
        promise_key_spec(i) != accepted_key_spec(j),
        i != j ==> promise_key_spec(i) != promise_key_spec(j),
        i != j ==> accepted_key_spec(i) != accepted_key_spec(j),
{
    lemma_promise_key_parts(i);
    lemma_promise_key_parts(j);
    lemma_accepted_key_parts(i);
    lemma_accepted_key_parts(j);
    let p = promise_key_spec(i);
    let a = accepted_key_spec(j);
    assert(p[p.len() - 1] == 116u8);
    assert(a[a.len() - 1] == 100u8);
}

/// What a load gives back of a save of an accepted proposal: after the ballot and
/// the proposal of an instance were stored, its record holds that ballot, and that
/// ballot with the command's bytes.
pub proof fn lemma_load_after_accept(stored: Map<Seq<u8>, Seq<u8>>, id: u64, ballot: Ballot, command: Seq<u8>)
    ensures
        stored_record(
            stored.insert(promise_key_spec(id), decimal_digits(ballot as nat)).insert(
                accepted_key_spec(id),
                accepted_record_spec(ballot, command),
            ),
            id,
        ) == Some(Some((ballot, Some((ballot, command))))),
{
    lemma_acceptor_keys_distinct(id, id);
    lemma_stored_digits(ballot, 0);
    lemma_record_parse(ballot, command);
}

/// A read gives back a write: where a command type's decoding inverts its
/// encoding, the acceptor state loaded for an instance after its accepted proposal
/// was saved holds that ballot, and that ballot with the saved command.
pub proof fn lemma_load_gives_back_accept<C: SerializableCommand>(
    stored: Map<Seq<u8>, Seq<u8>>,
    id: u64,
    ballot: Ballot,
    command: C,
    st: AcceptorState<C>,
)
    requires
        decoding_inverts_encoding::<C>(),
        state_of_record(
            stored_record(stored_after_event(stored, Some(PersistEvent::Accept { instance_id: id, ballot, command })), id).unwrap(),
            Some(st),
        ),
    ensures
        st.max_ballot == ballot,
        st.max_accepted == Some(AcceptedValue { ballot, command }),
{
    lemma_load_after_accept(stored, id, ballot, command.encoding());
    let v = st.max_accepted.unwrap();
    assert(C::decodes_to(command.encoding(), Some(v.command)));
}

/// Replay comes back in instance order: where every key under `log/` is the key
/// of some instance (as `append` writes them), the instances that replay reads
/// back strictly increase.
pub proof fn lemma_replay_in_instance_order<C: SerializableCommand>(
    stored: Map<Seq<u8>, Seq<u8>>,
    es: Seq<(Seq<u8>, Seq<u8>)>,
    r: Seq<(u64, C)>,
)
    requires
        sorted_entries_of(es, stored, log_prefix_spec()),
        replayed(es, r),
        forall|k: Seq<u8>| #[trigger] stored.contains_key(k) && is_prefix(log_prefix_spec(), k) ==> exists|id: u64|
            k == log_key_spec(id),
    ensures
        forall|i: int, j: int| 0 <= i < j < r.len() ==> r[i].0 < r[j].0,
{
    assert forall|i: int, j: int| 0 <= i < j < r.len() implies r[i].0 < r[j].0 by {
        let ki = es[i].0;
        let kj = es[j].0;
        assert(entries_map(es).contains_key(ki));
        assert(entries_map(es).contains_key(kj));
        assert(stored.contains_key(ki) && is_prefix(log_prefix_spec(), ki));
        assert(stored.contains_key(kj) && is_prefix(log_prefix_spec(), kj));
        let a = choose|id: u64| ki == log_key_spec(id);
        let b = choose|id: u64| kj == log_key_spec(id);
        lemma_log_key_parts(a);
        lemma_log_key_parts(b);
        assert(log_id_of_key_spec(es[i].0) == Some(r[i].0));
        assert(log_id_of_key_spec(es[j].0) == Some(r[j].0));
        assert(lex_lt(es[i].0, es[j].0));
        lemma_log_keys_in_instance_order(a, b);
    }
}

/// A read gives back a write for the command log: where a command type's decoding
/// inverts its encoding, each replayed entry whose stored bytes are the encoding of
/// a command gives back that command.
pub proof fn lemma_replay_gives_back<C: SerializableCommand>(es: Seq<(Seq<u8>, Seq<u8>)>, r: Seq<(u64, C)>, j: int, c: C)
    requires
        decoding_inverts_encoding::<C>(),
        replayed(es, r),
        0 <= j < es.len(),
        es[j].1 == c.encoding(),
    ensures
        r[j].1 == c,
{
    assert(log_id_of_key_spec(es[j].0) == Some(r[j].0));
    assert(C::decodes_to(c.encoding(), Some(r[j].1)));
}

/// What a load gives back of a save of a promise: the record holds the promised
/// ballot, with whatever accepted proposal was stored before.
pub proof fn lemma_load_after_promise(stored: Map<Seq<u8>, Seq<u8>>, id: u64, ballot: Ballot)
    ensures
        stored_record(stored.insert(promise_key_spec(id), decimal_digits(ballot as nat)), id) == match stored.get(
            accepted_key_spec(id),
        ) {
            None => Some(Some((ballot, None))),
            Some(av) => match accepted_record_parse(av) {
                None => None,
                Some(acc) => Some(Some((ballot, Some(acc)))),
            },
        },
{
    lemma_acceptor_keys_distinct(id, id);
    lemma_stored_digits(ballot, 0);
}

/// Saves of one instance leave the record of every other instance as it was.
pub proof fn lemma_saves_are_per_instance(stored: Map<Seq<u8>, Seq<u8>>, id: u64, other: u64, k: Seq<u8>, v: Seq<u8>)
    requires
        id != other,
        k == promise_key_spec(id) || k == accepted_key_spec(id),
    ensures
        stored_record(stored.insert(k, v), other) == stored_record(stored, other),
{
    lemma_acceptor_keys_distinct(id, other);
    lemma_acceptor_keys_distinct(other, id);
}

/// The stored form of an accepted proposal parses back to its ballot and command.
pub proof fn lemma_record_parse(ballot: Ballot, command: Seq<u8>)
    ensures
        accepted_record_parse(accepted_record_spec(ballot, command)) == Some((ballot, command)),
{
    let r = accepted_record_spec(ballot, command);
    let d = decimal_digits(ballot as nat);
    let h = record_head_spec();
    let m = record_mid_spec();
    crate::text::lemma_decimal_digits_value(ballot as nat);
    let e: int = 10 + d.len() as int;
    assert(r.subrange(0, 10) =~= h);
    assert(r[e] == 44u8);
    assert forall|j: int| 10 <= j < e implies r[j] != 44u8 by {
        assert(r[j] == d[j - 10]);
        assert(crate::text::is_digit(d[j - 10]));
    }
    let k = choose|k: int| 10 <= k < r.len() && r[k] == 44u8 && forall|j: int| 10 <= j < k ==> r[j] != 44u8;
    if k < e {
        assert(r[k] != 44u8);
    } else if k > e {
        assert(r[e] != 44u8);
    }
    assert(first_comma(r) == Some(e));
    assert(r.subrange(e, e + 11) =~= m);
    assert(r.subrange(10, e) =~= d);
    assert(r.subrange(e + 11, r.len() - 1) =~= command);
    lemma_stored_digits(ballot, 0);
}

/// What the count of applied instances reads back after it was stored.
pub proof fn lemma_last_applied_round_trip(stored: Map<Seq<u8>, Seq<u8>>, n: u64)
    ensures
        last_applied_spec(stored.insert(last_applied_key_spec(), decimal_digits(n as nat)).get(last_applied_key_spec()))
            == Some(n),
        last_applied_spec(Map::<Seq<u8>, Seq<u8>>::empty().get(last_applied_key_spec())) == Some(0u64),
{
    lemma_stored_digits(0, n);
}

/// The log key of an instance starts with `log/` and names the instance.
pub proof fn lemma_log_key_parts(id: u64)
    ensures
        is_prefix(log_prefix_spec(), log_key_spec(id)),
        log_id_of_key_spec(log_key_spec(id)) == Some(id),
{
    let k = log_key_spec(id);
    let z = zero_padded(id as nat, 20);
    crate::text::lemma_zero_padded_value(id as nat, 20);
    assert(k.subrange(0, 4) =~= log_prefix_spec());
    assert(k.subrange(4, k.len() as int) =~= z);
    if z[0] == 43u8 {
        assert(crate::text::is_digit(z[0]));
    }
}

/// `s` and `t` agree before position `i`.
pub open spec fn agree_before(s: Seq<u8>, t: Seq<u8>, i: int) -> bool {
    forall|k: int| 0 <= k < i ==> s[k] == t[k]
}

/// The first position before `j` where `s` and `t` differ holds a smaller byte in `s`.
pub open spec fn first_difference_lt(s: Seq<u8>, t: Seq<u8>, j: int) -> bool {
    exists|i: int| 0 <= i < j && agree_before(s, t, i) && s[i] < t[i]
}

/// Two sequences agree before `j`, or their first difference before `j` is lower
/// in one of them.
proof fn lemma_first_difference(s: Seq<u8>, t: Seq<u8>, j: int)
    requires
        0 <= j <= s.len(),
        j <= t.len(),
    ensures
        agree_before(s, t, j) || first_difference_lt(s, t, j) || first_difference_lt(t, s, j),
    decreases j,
{
    if j > 0 {
        lemma_first_difference(s, t, j - 1);
        if agree_before(s, t, j - 1) {
            if s[j - 1] < t[j - 1] {
                assert(agree_before(s, t, j - 1) && s[j - 1] < t[j - 1]);
            } else if t[j - 1] < s[j - 1] {
                assert(agree_before(t, s, j - 1));
            }
        } else if first_difference_lt(s, t, j - 1) {
            let i = choose|i: int| 0 <= i < j - 1 && agree_before(s, t, i) && s[i] < t[i];
            assert(0 <= i < j && agree_before(s, t, i) && s[i] < t[i]);
        } else {
            let i = choose|i: int| 0 <= i < j - 1 && agree_before(t, s, i) && t[i] < s[i];
            assert(0 <= i < j && agree_before(t, s, i) && t[i] < s[i]);
        }
    }
}

/// Of two digit strings of one length, the prefixes of length `j` compare as
/// numbers as their first difference says.
proof fn lemma_prefix_values(s: Seq<u8>, t: Seq<u8>, j: int)
    requires
        crate::text::all_digits(s),
        crate::text::all_digits(t),
        s.len() == t.len(),
        0 <= j <= s.len(),
    ensures
        agree_before(s, t, j) ==> crate::text::digits_value(s.subrange(0, j)) == crate::text::digits_value(
            t.subrange(0, j),
        ),
        first_difference_lt(s, t, j) ==> crate::text::digits_value(s.subrange(0, j))
            < crate::text::digits_value(t.subrange(0, j)),
        first_difference_lt(t, s, j) ==> crate::text::digits_value(t.subrange(0, j))
            < crate::text::digits_value(s.subrange(0, j)),
    decreases j,
{
    if j == 0 {
        assert(s.subrange(0, 0) =~= t.subrange(0, 0));
    } else {
        lemma_prefix_values(s, t, j - 1);
        let sp = s.subrange(0, j);
        let tp = t.subrange(0, j);
        assert(sp.drop_last() =~= s.subrange(0, j - 1));
        assert(tp.drop_last() =~= t.subrange(0, j - 1));
        assert(crate::text::is_digit(s[j - 1]));
        assert(crate::text::is_digit(t[j - 1]));
        let vs = crate::text::digits_value(s.subrange(0, j - 1));
        let vt = crate::text::digits_value(t.subrange(0, j - 1));
        assert(crate::text::digits_value(sp) == vs * 10 + (s[j - 1] - 48));
        assert(crate::text::digits_value(tp) == vt * 10 + (t[j - 1] - 48));
        if agree_before(s, t, j) {
            assert(agree_before(s, t, j - 1));
        }
        if first_difference_lt(s, t, j) {
            let i = choose|i: int| 0 <= i < j && agree_before(s, t, i) && s[i] < t[i];
            if i < j - 1 {
                assert(first_difference_lt(s, t, j - 1));
            } else {
                assert(agree_before(s, t, j - 1));
            }
        }
        if first_difference_lt(t, s, j) {
            let i = choose|i: int| 0 <= i < j && agree_before(t, s, i) && t[i] < s[i];
            if i < j - 1 {
                assert(first_difference_lt(t, s, j - 1));
            } else {
                assert(agree_before(t, s, j - 1));
                assert(agree_before(s, t, j - 1));
            }
        }
    }
}

/// Byte-by-byte order from position `i`, of sequences of one length that agree
/// before `i`, is the order of their first difference.
proof fn lemma_lex_is_first_difference(s: Seq<u8>, t: Seq<u8>, i: int)
    requires
        s.len() == t.len(),
        0 <= i <= s.len(),
        agree_before(s, t, i),
    ensures
        lex_lt_from(s, t, i) <==> first_difference_lt(s, t, s.len() as int),
    decreases s.len() - i,
{
    if i < s.len() {
        if s[i] == t[i] {
            lemma_lex_is_first_difference(s, t, i + 1);
        } else if s[i] < t[i] {
            assert(0 <= i < s.len() && agree_before(s, t, i) && s[i] < t[i]);
        } else {
            if first_difference_lt(s, t, s.len() as int) {
                let k = choose|k: int| 0 <= k < s.len() && agree_before(s, t, k) && s[k] < t[k];
                if k > i {
                    assert(s[i] == t[i]);
                } else if k < i {
                    assert(s[k] == t[k]);
                }
            }
        }
    } else {
        if first_difference_lt(s, t, s.len() as int) {
            let k = choose|k: int| 0 <= k < s.len() && agree_before(s, t, k) && s[k] < t[k];
            assert(s[k] == t[k]);
        }
    }
}

/// Prepending the same bytes does not change the byte-by-byte order.
proof fn lemma_lex_common_prefix(p: Seq<u8>, x: Seq<u8>, y: Seq<u8>, i: int)
    requires
        0 <= i <= p.len(),
    ensures
        lex_lt_from(p + x, p + y, i) == lex_lt_from(x, y, 0),
    decreases p.len() + x.len() - i,
{
    if i < p.len() {
        lemma_lex_common_prefix(p, x, y, i + 1);
    } else {
        lemma_lex_shift(p, x, y, 0);
    }
}

/// Comparing after a common prefix is comparing the rests.
proof fn lemma_lex_shift(p: Seq<u8>, x: Seq<u8>, y: Seq<u8>, i: int)
    requires
        0 <= i,
    ensures
        lex_lt_from(p + x, p + y, p.len() + i) == lex_lt_from(x, y, i),
    decreases x.len() - i,
{
    if i < x.len() && i < y.len() && x[i] == y[i] {
        lemma_lex_shift(p, x, y, i + 1);
    }
}

/// The log keys sort in instance order: the key of a lower instance comes first.
pub proof fn lemma_log_keys_in_instance_order(a: u64, b: u64)
    ensures
        lex_lt(log_key_spec(a), log_key_spec(b)) <==> a < b,
{
    let za = zero_padded(a as nat, 20);
    let zb = zero_padded(b as nat, 20);
    crate::text::lemma_zero_padded_value(a as nat, 20);
    crate::text::lemma_zero_padded_value(b as nat, 20);
    crate::text::lemma_u64_digits_at_most_20(a);
    crate::text::lemma_u64_digits_at_most_20(b);
    assert(za.len() == 20 && zb.len() == 20);
    lemma_lex_common_prefix(log_prefix_spec(), za, zb, 0);
    lemma_lex_is_first_difference(za, zb, 0);
    lemma_first_difference(za, zb, 20);
    lemma_prefix_values(za, zb, 20);
    assert(za.subrange(0, 20) =~= za);
    assert(zb.subrange(0, 20) =~= zb);
    if agree_before(za, zb, 20) {
        assert(za =~= zb);
    }
}

/// Where no byte of `s[from..to]` is `/`, the next `/` from `from` is the next one
/// from `to`.
pub proof fn lemma_next_slash_skips(s: Seq<u8>, from: int, to: int)
    requires
        0 <= from <= to <= s.len(),
        forall|i: int| from <= i < to ==> s[i] != 47u8,
    ensures
        next_slash(s, from) == next_slash(s, to),
    decreases to - from,
{
    if from < to {
        lemma_next_slash_skips(s, from + 1, to);
    }
}

/// Bytes below 128 are valid UTF-8.
pub proof fn lemma_ascii_valid_utf8(k: Seq<u8>)
    requires
        forall|i: int| 0 <= i < k.len() ==> k[i] < 128,
    ensures
        vstd::utf8::valid_utf8(k),
{
    assert(k.subrange(0, 0) =~= Seq::<u8>::empty());
    assert(vstd::utf8::partial_valid_utf8(k, 0));
    vstd::utf8::partial_valid_utf8_extend_ascii_block(k, 0, k.len() as int);
    assert(k.subrange(0, k.len() as int) =~= k);
}

/// A write requested from the command log.
pub enum LogRequest<C> {
    /// The command applied at an instance.
    Append { instance_id: u64, command: C },
    /// The number of applied instances.
    SetLastApplied { count: u64 },
}

/// Append-only command log over a generic `Storage` backend.
pub struct CommandLog<C> {
    storage: Box<dyn Storage>,
    /// Every write requested through this value, in order.
    requests: Ghost<Seq<LogRequest<C>>>,
}

impl<C> CommandLog<C> {
    /// Every write requested through this value, in order.
    pub closed spec fn requests(&self) -> Seq<LogRequest<C>> {
        self.requests@
    }

    /// The map that the backend holds.
    pub closed spec fn stored(&self) -> Map<Seq<u8>, Seq<u8>> {
        self.storage.stored()
    }
}

/// `r` is what the log entries `es` read back as: for each entry in order, the
/// instance its key names and the command its value decodes to.
pub open spec fn replayed<C: SerializableCommand>(es: Seq<(Seq<u8>, Seq<u8>)>, r: Seq<(u64, C)>) -> bool {
    &&& r.len() == es.len()
    &&& forall|j: int| 0 <= j < es.len() ==> {
        &&& log_id_of_key_spec(#[trigger] es[j].0) == Some(r[j].0)
        &&& C::decodes_to(es[j].1, Some(r[j].1))
    }
}

impl<C: SerializableCommand> CommandLog<C> {
    pub fn new(storage: Box<dyn Storage>) -> (r: Self)
        ensures
            r.requests() == Seq::<LogRequest<C>>::empty(),
            r.stored() == storage.stored(),
    {
        let mut r = Self { storage: Box::new(crate::storage::InMemoryStorage::new()), requests: Ghost(Seq::empty()) };
        // Moved in by a swap, as in `PaxosStorage::new`.
        let mut backend = storage;
        core::mem::swap(&mut r.storage, &mut backend);
        r
    }

    /// Writes the command applied at an instance under `log/{instance}`.
    pub fn append(&mut self, instance_id: u64, command: &C) -> (r: crate::Result<()>)
        ensures
            final(self).requests() == old(self).requests().push(LogRequest::Append { instance_id, command: *command }),
            r is Ok ==> final(self).stored() == old(self).stored().insert(
                log_key_spec(instance_id),
                command.encoding(),
            ),
    {
        let key = log_key(instance_id);
        let value = command.encode_command();
        self.requests = Ghost(self.requests@.push(LogRequest::Append { instance_id, command: *command }));
        self.storage.put(key.as_slice(), value.as_slice())
    }

    /// The number of applied instances that a stored value represents.
    pub fn last_applied_from(value: Option<&[u8]>) -> (r: crate::Result<u64>)
        ensures
            r is Ok <==> last_applied_spec(opt_bytes_view(value)) is Some,
            r is Ok ==> last_applied_spec(opt_bytes_view(value)) == Some(r.unwrap()),
    {
        match value {
            None => Ok(0),
            Some(v) => match decode_u64(v) {
                Ok(n) => Ok(n),
                Err(e) => Err(error_from_json(e)),
            },
        }
    }

    /// The number of applied instances, as stored; zero when nothing is stored.
    pub fn last_applied(&self) -> (r: crate::Result<u64>)
        ensures
            r is Ok ==> last_applied_spec(self.stored().get(last_applied_key_spec())) == Some(r.unwrap()),
            last_applied_spec(self.stored().get(last_applied_key_spec())) is None ==> r is Err,
    {
        let key = last_applied_key();
        match self.storage.get(key.as_slice()) {
            Ok(Some(bytes)) => Self::last_applied_from(Some(bytes.as_slice())),
            Ok(None) => Self::last_applied_from(None),
            Err(e) => Err(e),
        }
    }

    /// Stores the number of applied instances.
    pub fn set_last_applied(&mut self, id: u64) -> (r: crate::Result<()>)
        ensures
            final(self).requests() == old(self).requests().push(LogRequest::SetLastApplied { count: id }),
            r is Ok ==> final(self).stored() == old(self).stored().insert(
                last_applied_key_spec(),
                decimal_digits(id as nat),
            ),
    {
        self.requests = Ghost(self.requests@.push(LogRequest::SetLastApplied { count: id }));
        let key = last_applied_key();
        let value = match json_encode_u64(id) {
            Ok(v) => v,
            Err(_) => Vec::new(),
        };
        self.storage.put(key.as_slice(), value.as_slice())
    }

    /// Reads log entries back: for each entry in order, the instance its key names
    /// and the command its value decodes to; an error at the first entry whose key
    /// or command does not decode.
    pub fn replay_entries(entries: &Vec<(Vec<u8>, Vec<u8>)>) -> (r: crate::Result<Vec<(u64, C)>>)
        ensures
            r is Ok ==> replayed(entries_of(entries@), r.unwrap()@),
            r is Err ==> exists|j: int|
                0 <= j < entries@.len() && (log_id_of_key_spec(#[trigger] entries_of(entries@)[j].0) is None
                    || C::decodes_to(entries_of(entries@)[j].1, None)),
            (exists|j: int| 0 <= j < entries@.len() && log_id_of_key_spec(#[trigger] entries_of(entries@)[j].0) is None)
                ==> r is Err,
    {
        let ghost es = entries_of(entries@);
        let mut result: Vec<(u64, C)> = Vec::new();
        let mut i: usize = 0;
        while i < entries.len()
            invariant
                i <= entries@.len(),
                es == entries_of(entries@),
                result@.len() == i,
                forall|j: int| 0 <= j < i ==> {
                    &&& log_id_of_key_spec(#[trigger] es[j].0) == Some(result@[j].0)
                    &&& C::decodes_to(es[j].1, Some(result@[j].1))
                },
            decreases entries.len() - i,
        {
            let id = match log_id_of_key(entries[i].0.as_slice()) {
                Some(id) => id,
                None => {
                    assert(log_id_of_key_spec(es[i as int].0) is None);
                    return Err(error_with_message("invalid log key"));
                },
            };
            let command = match C::decode_command(entries[i].1.as_slice()) {
                Some(c) => c,
                None => {
                    assert(C::decodes_to(es[i as int].1, None));
                    assert(log_id_of_key_spec(es[i as int].0) == Some(id));
                    return Err(error_with_message("invalid logged command"));
                },
            };
            result.push((id, command));
            i = i + 1;
        }
        proof {
            if exists|j: int| 0 <= j < entries@.len() && log_id_of_key_spec(#[trigger] es[j].0) is None {
                let j = choose|j: int| 0 <= j < entries@.len() && log_id_of_key_spec(#[trigger] es[j].0) is None;
                assert(log_id_of_key_spec(es[j].0) == Some(result@[j].0));
            }
        }
        assert(replayed(es, result@));
        Ok(result)
    }

    /// Reads back every logged command with its instance, in the order of the
    /// stored keys (instance order); an error when a key or a command does not
    /// decode.
    pub fn replay(&self) -> (r: crate::Result<Vec<(u64, C)>>)
        ensures
            r is Ok ==> exists|es: Seq<(Seq<u8>, Seq<u8>)>|
                sorted_entries_of(es, self.stored(), log_prefix_spec()) && replayed(es, r.unwrap()@),
            (exists|k: Seq<u8>| #[trigger] self.stored().contains_key(k) && is_prefix(log_prefix_spec(), k)
                && log_id_of_key_spec(k) is None) ==> r is Err,
    {
        let prefix = log_prefix();
        let entries = self.storage.scan_prefix(prefix.as_slice())?;
        let ghost es = entries_of(entries@);
        let r = Self::replay_entries(&entries);
        proof {
            assert(sorted_entries_of(es, self.stored(), log_prefix_spec()));
            if exists|k: Seq<u8>| #[trigger] self.stored().contains_key(k) && is_prefix(log_prefix_spec(), k)
                && log_id_of_key_spec(k) is None {
                let k = choose|k: Seq<u8>| #[trigger] self.stored().contains_key(k) && is_prefix(log_prefix_spec(), k)
                    && log_id_of_key_spec(k) is None;
                assert(entries_map(es).contains_key(k));
                let j = choose|j: int| 0 <= j < es.len() && es[j].0 == k;
                assert(log_id_of_key_spec(es[j].0) is None);
            }
        }
        r
    }
}

} // verus!
