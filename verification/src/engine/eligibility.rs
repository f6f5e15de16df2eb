//! Which requirement tags a caller satisfies.

use crate::text::to_ascii_lowercase;
use vstd::prelude::*;
#[allow(unused_imports)]
use crate::text::{ascii_lower, ascii_lowered};
#[allow(unused_imports)]
use vstd::utf8::encode_utf8;

verus! {

/// One flag for each requirement tag of a snapshot.
#[derive(Debug, Clone)]
pub struct EligibilityMask {
    pub satisfied: Vec<bool>,
}

/// Whether the tag `i` is one of the mask and holds. A tag beyond the mask never holds.
pub open spec fn holds(mask: Seq<bool>, i: usize) -> bool {
    i < mask.len() && mask[i as int]
}

/// Whether every tag of the list holds.
pub open spec fn all_hold(mask: Seq<bool>, reqs: Seq<usize>) -> bool {
    forall|k: int| 0 <= k < reqs.len() ==> holds(mask, #[trigger] reqs[k])
}

impl EligibilityMask {
    pub fn len(&self) -> (r: usize)
        ensures
            r == self.satisfied@.len(),
    {
        self.satisfied.len()
    }

    pub fn is_satisfied(&self, idx: usize) -> (r: bool)
        ensures
            r == holds(self.satisfied@, idx),
    {
        idx < self.satisfied.len() && self.satisfied[idx]
    }

    /// Whether every tag of the list holds.
    pub fn satisfies_all(&self, reqs: &Vec<usize>) -> (r: bool)
        ensures
            r == all_hold(self.satisfied@, reqs@),
    {
        let mut k: usize = 0;
        while k < reqs.len()
            invariant
                k <= reqs@.len(),
                forall|j: int| 0 <= j < k ==> holds(self.satisfied@, #[trigger] reqs@[j]),
            decreases reqs@.len() - k,
        {
            if !self.is_satisfied(reqs[k]) {
                assert(!holds(self.satisfied@, reqs@[k as int]));
                return false;
            }
            k += 1;
        }
        true
    }
}

/// How a requirement compares what a caller has with what it asks for.
#[derive(Debug, Clone, Copy, PartialEq, Eq, Structural)]
pub enum Op {
    Eq,
    Ne,
    Lt,
    Le,
    Gt,
    Ge,
}

/// A requirement tag: its id, the hash of its key, how it compares, and what it asks for.
pub type EncodedTag = [u32; 4];

/// The bit that marks a comparison of numbers.
pub const NUMERIC: u32 = 8;

/// The number of a comparison.
pub open spec fn op_number(op: Op) -> u32 {
    match op {
        Op::Eq => 0,
        Op::Ne => 1,
        Op::Lt => 2,
        Op::Le => 3,
        Op::Gt => 4,
        Op::Ge => 5,
    }
}

/// The comparison and whether it is one of numbers, as one number.
pub open spec fn op_bits(op: Op, numeric: bool) -> u32 {
    if numeric { (op_number(op) + NUMERIC) as u32 } else { op_number(op) }
}

pub fn encode_opbits(op: Op, numeric: bool) -> (r: u32)
    ensures
        r == op_bits(op, numeric),
{
    let n: u32 = match op {
        Op::Eq => 0,
        Op::Ne => 1,
        Op::Lt => 2,
        Op::Le => 3,
        Op::Gt => 4,
        Op::Ge => 5,
    };
    if numeric {
        n + NUMERIC
    } else {
        n
    }
}

/// The comparison that a number stands for, where it stands for one.
pub open spec fn op_of(bits: u32) -> Option<(Op, bool)> {
    let numeric = bits >= NUMERIC;
    let n = if numeric { bits - NUMERIC } else { bits as int };
    if n == 0 {
        Some((Op::Eq, numeric))
    } else if n == 1 {
        Some((Op::Ne, numeric))
    } else if n == 2 {
        Some((Op::Lt, numeric))
    } else if n == 3 {
        Some((Op::Le, numeric))
    } else if n == 4 {
        Some((Op::Gt, numeric))
    } else if n == 5 {
        Some((Op::Ge, numeric))
    } else {
        None
    }
}

pub fn decode_opbits(bits: u32) -> (r: Option<(Op, bool)>)
    ensures
        r == op_of(bits),
{
    let numeric: bool = bits >= NUMERIC;
    let n: u32 = if numeric { bits - NUMERIC } else { bits };
    match n {
        0 => Some((Op::Eq, numeric)),
        1 => Some((Op::Ne, numeric)),
        2 => Some((Op::Lt, numeric)),
        3 => Some((Op::Le, numeric)),
        4 => Some((Op::Gt, numeric)),
        5 => Some((Op::Ge, numeric)),
        _ => None,
    }
}

/// Decoding a comparison gives back what was encoded.
pub proof fn law_opbits_round_trip(op: Op, numeric: bool)
    ensures
        op_of(op_bits(op, numeric)) == Some((op, numeric)),
{
}

/// One step of the 32-bit FNV-1a hash.
pub open spec fn fnv_step(h: u32, b: u8) -> u32 {
    ((h ^ (b as u32)) as int * 0x0100_0193 % 0x1_0000_0000) as u32
}

/// The 32-bit FNV-1a hash of some bytes.
pub open spec fn fnv(bytes: Seq<u8>) -> u32
    decreases bytes.len(),
{
    if bytes.len() == 0 { 0x811c_9dc5 } else { fnv_step(fnv(bytes.drop_last()), bytes.last()) }
}

/// The 32-bit FNV-1a hash of a text.
pub fn fnv1a32(s: &str) -> (r: u32)
    ensures
        r == fnv(encode_utf8(s@)),
{
    let bytes: &[u8] = s.as_bytes();
    let len: usize = bytes.len();
    let mut h: u32 = 0x811c_9dc5;
    let mut i: usize = 0;
    assert(bytes@.take(0) =~= Seq::empty());
    while i < len
        invariant
            i <= len,
            len == bytes@.len(),
            h == fnv(bytes@.take(i as int)),
        decreases len - i,
    {
        assert(bytes@.take(i + 1).drop_last() =~= bytes@.take(i as int));
        let x: u32 = h ^ (bytes[i] as u32);
        h = ((x as u64 * 0x0100_0193) % 0x1_0000_0000) as u32;
        i += 1;
    }
    assert(bytes@.take(i as int) =~= bytes@);
    h
}

/// What a caller has.
#[derive(Debug)]
pub enum ClientValue {
    Num(i64),
    Str(String),
}

/// What a caller has under a key.
#[derive(Debug)]
pub struct ClientEntry {
    pub key: String,
    pub value: ClientValue,
}

/// The hash of a key, in which the case of its letters does not count.
pub open spec fn key_hash(key: Seq<char>) -> u32 {
    fnv(encode_utf8(ascii_lowered(key)))
}

/// The last of the first `k` entries under a key.
pub open spec fn last_with(e: Seq<ClientEntry>, hash: u32, k: int) -> Option<int>
    decreases k,
{
    if k <= 0 {
        None
    } else if key_hash(e[k - 1].key@) == hash {
        Some(k - 1)
    } else {
        last_with(e, hash, k - 1)
    }
}

/// Whether `a` compares with `b` as asked.
pub open spec fn compares(op: Op, a: int, b: int) -> bool {
    match op {
        Op::Eq => a == b,
        Op::Ne => a != b,
        Op::Lt => a < b,
        Op::Le => a <= b,
        Op::Gt => a > b,
        Op::Ge => a >= b,
    }
}

/// Whether what a caller has is what a tag asks for: a number against a number, a text against
/// the hash of a text, which can only be the same or not.
pub open spec fn meets_tag(v: ClientValue, bits: u32, rhs: u32) -> bool {
    match (op_of(bits), v) {
        (Some((op, true)), ClientValue::Num(n)) => compares(op, n as int, rhs as i32 as int),
        (Some((Op::Eq, false)), ClientValue::Str(s)) => fnv(encode_utf8(s@)) == rhs,
        (Some((Op::Ne, false)), ClientValue::Str(s)) => fnv(encode_utf8(s@)) != rhs,
        _ => false,
    }
}

/// Whether tag `t` of the words is satisfied by what a caller has. A key that it does not give
/// satisfies nothing.
pub open spec fn tag_met(words: Seq<u32>, e: Seq<ClientEntry>, t: int) -> bool {
    match last_with(e, words[4 * t + 1], e.len() as int) {
        Some(i) => meets_tag(e[i].value, words[4 * t + 2], words[4 * t + 3]),
        None => false,
    }
}

fn check_tag(v: &ClientValue, bits: u32, rhs: u32) -> (r: bool)
    ensures
        r == meets_tag(*v, bits, rhs),
{
    match (decode_opbits(bits), v) {
        (Some((op, true)), ClientValue::Num(n)) => {
            let a: i64 = *n;
            let b: i64 = rhs as i32 as i64;
            match op {
                Op::Eq => a == b,
                Op::Ne => a != b,
                Op::Lt => a < b,
                Op::Le => a <= b,
                Op::Gt => a > b,
                Op::Ge => a >= b,
            }
        },
        (Some((Op::Eq, false)), ClientValue::Str(s)) => fnv1a32(s.as_str()) == rhs,
        (Some((Op::Ne, false)), ClientValue::Str(s)) => fnv1a32(s.as_str()) != rhs,
        _ => false,
    }
}

/// Which of the tags, four words each, are satisfied by what a caller has.
pub fn build_mask_from_u32(words: &[u32], entries: &Vec<ClientEntry>) -> (r: EligibilityMask)
    ensures
        r.satisfied@.len() == words@.len() / 4,
        forall|t: int| 0 <= t < words@.len() / 4 ==> #[trigger] r.satisfied@[t] == tag_met(words@, entries@, t),
{
    let mut hashes: Vec<u32> = Vec::new();
    let mut i: usize = 0;
    while i < entries.len()
        invariant
            i <= entries@.len(),
            hashes@.len() == i,
            forall|k: int| 0 <= k < i ==> #[trigger] hashes@[k] == key_hash(entries@[k].key@),
        decreases entries@.len() - i,
    {
        let lower: String = to_ascii_lowercase(entries[i].key.as_str());
        hashes.push(fnv1a32(lower.as_str()));
        i += 1;
    }
    let len: usize = words.len();
    let n: usize = len / 4;
    let mut satisfied: Vec<bool> = Vec::new();
    let mut t: usize = 0;
    while t < n
        invariant
            t <= n,
            n == len / 4,
            len == words@.len(),
            hashes@.len() == entries@.len(),
            forall|k: int| 0 <= k < entries@.len() ==> #[trigger] hashes@[k] == key_hash(entries@[k].key@),
            satisfied@.len() == t,
            forall|k: int| 0 <= k < t ==> #[trigger] satisfied@[k] == tag_met(words@, entries@, k),
        decreases n - t,
    {
        let key: u32 = words[4 * t + 1];
        let mut k: usize = entries.len();
        let mut met: bool = false;
        let mut found: bool = false;
        while k > 0 && !found
            invariant
                k <= entries@.len(),
                t < n,
                n == len / 4,
                len == words@.len(),
                key == words@[4 * t + 1],
                hashes@.len() == entries@.len(),
                forall|k: int| 0 <= k < entries@.len() ==> #[trigger] hashes@[k] == key_hash(entries@[k].key@),
                found ==> last_with(entries@, key, entries@.len() as int) == Some(k as int) && k < entries@.len() && met
                    == meets_tag(entries@[k as int].value, words@[4 * t + 2], words@[4 * t + 3]),
                !found ==> !met && last_with(entries@, key, entries@.len() as int) == last_with(entries@, key, k as int),
            decreases k,
        {
            k -= 1;
            if hashes[k] == key {
                met = check_tag(&entries[k].value, words[4 * t + 2], words[4 * t + 3]);
                found = true;
            }
        }
        satisfied.push(met);
        t += 1;
    }
    EligibilityMask { satisfied }
}

/// A tag that compares numbers compares what the caller has with the number that it asks for, a 32-bit
/// one; a tag on a text asks for nothing of a number.
pub proof fn law_number_tags(n: i64, bits: u32, rhs: u32)
    ensures
        meets_tag(ClientValue::Num(n), 8, rhs) <==> n == rhs as i32,
        meets_tag(ClientValue::Num(n), 9, rhs) <==> n != rhs as i32,
        meets_tag(ClientValue::Num(n), 10, rhs) <==> n < rhs as i32,
        meets_tag(ClientValue::Num(n), 11, rhs) <==> n <= rhs as i32,
        meets_tag(ClientValue::Num(n), 12, rhs) <==> n > rhs as i32,
        meets_tag(ClientValue::Num(n), 13, rhs) <==> n >= rhs as i32,
        bits < 8 || bits > 13 ==> !meets_tag(ClientValue::Num(n), bits, rhs),
{
}

/// A tag on a text asks for its hash to be the same, or not to be; a text meets no other tag.
pub proof fn law_text_tags(s: String, bits: u32, rhs: u32)
    ensures
        meets_tag(ClientValue::Str(s), 0, rhs) <==> fnv(encode_utf8(s@)) == rhs,
        meets_tag(ClientValue::Str(s), 1, rhs) <==> fnv(encode_utf8(s@)) != rhs,
        bits > 1 ==> !meets_tag(ClientValue::Str(s), bits, rhs),
{
}

/// A tag is met exactly where what the caller gave last under its key meets it.
pub proof fn law_tags_ask_the_last_value(words: Seq<u32>, e: Seq<ClientEntry>, t: int)
    ensures
        tag_met(words, e, t) <==> exists|i: int|
            0 <= i < e.len() && key_hash((#[trigger] e[i]).key@) == words[4 * t + 1] && (forall|j: int|
                i < j < e.len() ==> key_hash((#[trigger] e[j]).key@) != words[4 * t + 1]) && meets_tag(
                e[i].value,
                words[4 * t + 2],
                words[4 * t + 3],
            ),
{
    lemma_last_with(e, words[4 * t + 1], e.len() as int);
    if let Some(i) = last_with(e, words[4 * t + 1], e.len() as int) {
        assert(key_hash(e[i].key@) == words[4 * t + 1]);
    }
}

proof fn lemma_last_with(e: Seq<ClientEntry>, hash: u32, k: int)
    requires
        0 <= k <= e.len(),
    ensures
        match last_with(e, hash, k) {
            Some(i) => 0 <= i < k && key_hash(e[i].key@) == hash && forall|j: int|
                i < j < k ==> key_hash((#[trigger] e[j]).key@) != hash,
            None => forall|j: int| 0 <= j < k ==> key_hash((#[trigger] e[j]).key@) != hash,
        },
    decreases k,
{
    if k > 0 && key_hash(e[k - 1].key@) != hash {
        lemma_last_with(e, hash, k - 1);
    }
}

/// The case of the letters of a key does not count.
pub proof fn law_case_of_keys_does_not_count(a: Seq<char>, b: Seq<char>)
    requires
        a.len() == b.len(),
        forall|i: int|
            0 <= i < a.len() ==> #[trigger] a[i] == b[i] || ('A' <= a[i] <= 'Z' && b[i] as u32 == a[i] as u32 + 32) || ('A'
                <= b[i] <= 'Z' && a[i] as u32 == b[i] as u32 + 32),
    ensures
        key_hash(a) == key_hash(b),
{
    assert forall|i: int| 0 <= i < a.len() implies ascii_lowered(a)[i] == #[trigger] ascii_lowered(b)[i] by {
        assert(a[i] == b[i] || ('A' <= a[i] <= 'Z' && b[i] as u32 == a[i] as u32 + 32) || ('A' <= b[i] <= 'Z' && a[i] as u32
            == b[i] as u32 + 32));
    }
    assert(ascii_lowered(a) =~= ascii_lowered(b));
}

/// The hash is the 32-bit FNV-1a hash: it starts from the offset basis, and each byte is mixed in before
/// it is multiplied by the prime.
pub proof fn law_hash_is_fnv1a(bytes: Seq<u8>, b: u8)
    ensures
        fnv(Seq::empty()) == 2166136261,
        fnv(bytes.push(b)) as int == ((fnv(bytes) ^ (b as u32)) as int * 16777619) % 4294967296,
{
    assert(bytes.push(b).drop_last() =~= bytes);
    let x = (fnv(bytes) ^ (b as u32)) as int;
    assert(0 <= (x * 16777619) % 4294967296 < 4294967296);
}

/// A mask satisfies a list of tags exactly where each of them is one of the mask and is satisfied.
pub proof fn law_masks_satisfy_all(mask: Seq<bool>, reqs: Seq<usize>)
    ensures
        all_hold(mask, reqs) <==> forall|k: int|
            0 <= k < reqs.len() ==> (#[trigger] reqs[k]) < mask.len() && mask[reqs[k] as int],
{
    if all_hold(mask, reqs) {
        assert forall|k: int| 0 <= k < reqs.len() implies (#[trigger] reqs[k]) < mask.len() && mask[reqs[k] as int] by {
            assert(holds(mask, reqs[k]));
        }
    } else {
        let k = choose|k: int| 0 <= k < reqs.len() && !holds(mask, #[trigger] reqs[k]);
        assert(!(reqs[k] < mask.len() && mask[reqs[k] as int]));
    }
}

}
