//! The data-block format of sorted tables, defined mathematically: entries with
//! prefix-compressed keys, the restart array, and the restart count.
use vstd::prelude::*;

use crate::bytes::{common_prefix_len, lemma_common_prefix, lex_lt};
use crate::fixedint::{le_bytes, le_value, lemma_le_bytes_len, lemma_le_round_trip, pow256};
use crate::varint::{
    lemma_varint_u64_round_trip, varint_decode, varint_encode,
    varint_u64_at,
};

verus! {

/// A key and its value.
pub type KeyValue = (Seq<u8>, Seq<u8>);

/// One entry: varints `shared`, `non_shared`, `value_len`, then the key's
/// unshared bytes, then the value.
pub open spec fn entry_bytes(shared: nat, suffix: Seq<u8>, value: Seq<u8>) -> Seq<u8> {
    varint_encode(shared) + varint_encode(suffix.len()) + varint_encode(value.len()) + suffix
        + value
}

/// Parses the entry at the front of `s`: shared length, unshared key bytes,
/// value and the entry's length in bytes.
pub open spec fn parse_entry(s: Seq<u8>) -> Option<(nat, Seq<u8>, Seq<u8>, nat)> {
    match varint_u64_at(s) {
        Some((sh, l1)) => match varint_u64_at(s.subrange(l1 as int, s.len() as int)) {
            Some((ns, l2)) => match varint_u64_at(s.subrange((l1 + l2) as int, s.len() as int)) {
                Some((vl, l3)) => {
                    let h = l1 + l2 + l3;
                    if h + ns + vl <= s.len() {
                        Some(
                            (
                                sh,
                                s.subrange(h as int, (h + ns) as int),
                                s.subrange((h + ns) as int, (h + ns + vl) as int),
                                (h + ns + vl) as nat,
                            ),
                        )
                    } else {
                        None
                    }
                },
                None => None,
            },
            None => None,
        },
        None => None,
    }
}

/// Decodes the entries of `s` in order, `prev` being the key before the first.
pub open spec fn decode_entries(s: Seq<u8>, prev: Seq<u8>) -> Option<Seq<KeyValue>>
    decreases s.len(),
{
    if s.len() == 0 {
        Some(seq![])
    } else {
        match parse_entry(s) {
            Some((sh, suffix, value, n)) => if sh <= prev.len() && 0 < n <= s.len() {
                let key = prev.subrange(0, sh as int) + suffix;
                match decode_entries(s.subrange(n as int, s.len() as int), key) {
                    Some(rest) => Some(seq![(key, value)] + rest),
                    None => None,
                }
            } else {
                None
            },
            None => None,
        }
    }
}

/// The last key of `es`, or `prev` when `es` is empty.
pub open spec fn last_key(es: Seq<KeyValue>, prev: Seq<u8>) -> Seq<u8> {
    if es.len() == 0 {
        prev
    } else {
        es.last().0
    }
}

/// The key before entry `i`, empty for the first.
pub open spec fn prev_key(es: Seq<KeyValue>, i: int) -> Seq<u8> {
    if i <= 0 {
        seq![]
    } else {
        es[i - 1].0
    }
}

/// Entry `i` starts a restart: every `every`-th entry after the first.
pub open spec fn is_restart(i: nat, every: nat) -> bool {
    i > 0 && every > 0 && i % every == 0
}

/// The shared-prefix length written for entry `i`.
pub open spec fn shared_at(es: Seq<KeyValue>, i: int, every: nat) -> nat {
    if is_restart(i as nat, every) {
        0
    } else {
        common_prefix_len(prev_key(es, i), es[i].0)
    }
}

/// The bytes written for entry `i`.
pub open spec fn entry_at(es: Seq<KeyValue>, i: int, every: nat) -> Seq<u8> {
    let sh = shared_at(es, i, every);
    let k = es[i].0;
    entry_bytes(sh, k.subrange(sh as int, k.len() as int), es[i].1)
}

/// The entry region of a block holding `es`, restarting every `every` entries.
pub open spec fn encode_data(es: Seq<KeyValue>, every: nat) -> Seq<u8>
    decreases es.len(),
{
    if es.len() == 0 {
        seq![]
    } else {
        encode_data(es.drop_last(), every) + entry_at(es, es.len() - 1, every)
    }
}

/// The offsets of the restart entries, starting with 0.
pub open spec fn restart_offsets(es: Seq<KeyValue>, every: nat) -> Seq<nat>
    decreases es.len(),
{
    if es.len() == 0 {
        seq![0]
    } else {
        let r = restart_offsets(es.drop_last(), every);
        if is_restart((es.len() - 1) as nat, every) {
            r.push(encode_data(es.drop_last(), every).len())
        } else {
            r
        }
    }
}

/// Each offset as four little-endian bytes.
pub open spec fn u32s_bytes(rs: Seq<nat>) -> Seq<u8>
    decreases rs.len(),
{
    if rs.len() == 0 {
        seq![]
    } else {
        u32s_bytes(rs.drop_last()) + le_bytes(rs.last(), 4)
    }
}

/// A finalized block: entries, restart array, restart count.
pub open spec fn block_image(es: Seq<KeyValue>, every: nat) -> Seq<u8> {
    let rs = restart_offsets(es, every);
    encode_data(es, every) + u32s_bytes(rs) + le_bytes(rs.len(), 4)
}

/// The trailing restart count of block `b`, where the block is long enough
/// to hold that many offsets and the count itself.
pub open spec fn block_restart_count(b: Seq<u8>) -> Option<nat> {
    if b.len() >= 4 {
        let c = le_value(b.subrange(b.len() - 4, b.len() as int));
        if 4 * (c + 1) <= b.len() {
            Some(c)
        } else {
            None
        }
    } else {
        None
    }
}

/// Where the restart array of a block with `c` stored offsets begins; also
/// the length of its entry region.
pub open spec fn data_end(b: Seq<u8>, c: nat) -> int {
    b.len() - 4 * (c + 1)
}

/// Stored offset `j` of a block with `c` stored offsets.
pub open spec fn stored_restart(b: Seq<u8>, c: nat, j: int) -> nat {
    le_value(b.subrange(data_end(b, c) + 4 * j, data_end(b, c) + 4 * j + 4))
}

/// The restart offsets of a block as a reader sees them: an implicit 0, then
/// the stored ones.
pub open spec fn block_restarts(b: Seq<u8>, c: nat) -> Seq<nat> {
    seq![0nat] + Seq::new(c, |j: int| stored_restart(b, c, j))
}

/// The block's restart count fits and every stored offset lies in its entry region.
pub open spec fn block_layout_ok(b: Seq<u8>) -> bool {
    match block_restart_count(b) {
        Some(c) => forall|j: int| 0 <= j < c ==> stored_restart(b, c, j) < data_end(b, c),
        None => false,
    }
}

/// The entry region of a block whose layout holds.
pub open spec fn block_data(b: Seq<u8>) -> Seq<u8> {
    b.subrange(0, data_end(b, block_restart_count(b).unwrap()))
}

/// The entries of block `b`, where its layout holds and its entries decode.
pub open spec fn block_entries(b: Seq<u8>) -> Option<Seq<KeyValue>> {
    if block_layout_ok(b) {
        decode_entries(block_data(b), seq![])
    } else {
        None
    }
}

/// The entries of `es` whose key is not below `from`, in order.
pub open spec fn entries_from(es: Seq<KeyValue>, from: Seq<u8>) -> Seq<KeyValue>
    decreases es.len(),
{
    if es.len() == 0 {
        seq![]
    } else {
        let r = entries_from(es.drop_last(), from);
        if lex_lt(es.last().0, from) {
            r
        } else {
            r.push(es.last())
        }
    }
}

/// The value of the first entry of `es` with key `k`.
pub open spec fn find_value(es: Seq<KeyValue>, k: Seq<u8>) -> Option<Seq<u8>>
    decreases es.len(),
{
    if es.len() == 0 {
        None
    } else if es[0].0 == k {
        Some(es[0].1)
    } else {
        find_value(es.drop_first(), k)
    }
}

/// Keys and values that a varint can describe.
pub open spec fn entries_fit(es: Seq<KeyValue>) -> bool {
    forall|i: int| 0 <= i < es.len() ==> #[trigger] es[i].0.len() <= u64::MAX && es[i].1.len() <= u64::MAX
}

pub proof fn lemma_varint_decode_prefix(a: Seq<u8>, b: Seq<u8>)
    requires
        varint_decode(a) is Some,
    ensures
        varint_decode(a + b) == varint_decode(a),
    decreases a.len(),
{
    let s = a + b;
    assert(s[0] == a[0]);
    if a[0] >= 128 {
        assert(s.drop_first() =~= a.drop_first() + b);
        lemma_varint_decode_prefix(a.drop_first(), b);
    }
}

proof fn lemma_varint_u64_prefix(a: Seq<u8>, b: Seq<u8>)
    requires
        varint_u64_at(a) is Some,
    ensures
        varint_u64_at(a + b) == varint_u64_at(a),
{
    lemma_varint_decode_prefix(a, b);
}

/// An entry parses the same whatever bytes follow it.
pub proof fn lemma_parse_entry_prefix(a: Seq<u8>, b: Seq<u8>)
    requires
        parse_entry(a) is Some,
    ensures
        parse_entry(a + b) == parse_entry(a),
{
    let s = a + b;
    let (sh, l1) = varint_u64_at(a).unwrap();
    lemma_varint_u64_prefix(a, b);
    let a1 = a.subrange(l1 as int, a.len() as int);
    assert(s.subrange(l1 as int, s.len() as int) =~= a1 + b);
    let (ns, l2) = varint_u64_at(a1).unwrap();
    lemma_varint_u64_prefix(a1, b);
    let a2 = a.subrange((l1 + l2) as int, a.len() as int);
    assert(s.subrange((l1 + l2) as int, s.len() as int) =~= a2 + b);
    assert(a1.subrange(l2 as int, a1.len() as int) =~= a2);
    let (vl, l3) = varint_u64_at(a2).unwrap();
    lemma_varint_u64_prefix(a2, b);
    let h = l1 + l2 + l3;
    assert(s.subrange(h as int, (h + ns) as int) =~= a.subrange(h as int, (h + ns) as int));
    assert(s.subrange((h + ns) as int, (h + ns + vl) as int) =~= a.subrange(
        (h + ns) as int,
        (h + ns + vl) as int,
    ));
}

/// Decoding a concatenation: the entries of the first part, then those of
/// the second, which starts from the first part's last key.
pub proof fn lemma_decode_concat(a: Seq<u8>, b: Seq<u8>, prev: Seq<u8>)
    requires
        decode_entries(a, prev) is Some,
    ensures
        decode_entries(a + b, prev) == match decode_entries(b, last_key(decode_entries(a, prev).unwrap(), prev)) {
            Some(fs) => Some(decode_entries(a, prev).unwrap() + fs),
            None => None::<Seq<KeyValue>>,
        },
    decreases a.len(),
{
    let es = decode_entries(a, prev).unwrap();
    if a.len() == 0 {
        assert(a + b =~= b);
        assert(es =~= seq![]);
        match decode_entries(b, prev) {
            Some(fs) => {
                assert(es + fs =~= fs);
            },
            None => {},
        }
    } else {
        let (sh, suffix, value, n) = parse_entry(a).unwrap();
        lemma_parse_entry_prefix(a, b);
        let key = prev.subrange(0, sh as int) + suffix;
        let a1 = a.subrange(n as int, a.len() as int);
        let s = a + b;
        assert(s.subrange(n as int, s.len() as int) =~= a1 + b);
        lemma_decode_concat(a1, b, key);
        let rest = decode_entries(a1, key).unwrap();
        assert(es == seq![(key, value)] + rest);
        assert(last_key(rest, key) == last_key(es, prev));
        match decode_entries(b, last_key(es, prev)) {
            Some(fs) => {
                assert(seq![(key, value)] + (rest + fs) =~= es + fs);
            },
            None => {},
        }
    }
}

/// One entry parses back to its fields.
#[verifier::rlimit(50)]
pub proof fn lemma_parse_entry_bytes(shared: nat, suffix: Seq<u8>, value: Seq<u8>)
    requires
        shared <= u64::MAX,
        suffix.len() <= u64::MAX,
        value.len() <= u64::MAX,
    ensures
        parse_entry(entry_bytes(shared, suffix, value)) == Some(
            (shared, suffix, value, entry_bytes(shared, suffix, value).len()),
        ),
{
    let e1 = varint_encode(shared);
    let e2 = varint_encode(suffix.len());
    let e3 = varint_encode(value.len());
    let s = entry_bytes(shared, suffix, value);
    lemma_varint_u64_round_trip(shared as u64, e2 + e3 + suffix + value);
    assert(s =~= e1 + (e2 + e3 + suffix + value));
    let l1 = e1.len();
    assert(s.subrange(l1 as int, s.len() as int) =~= e2 + (e3 + suffix + value));
    lemma_varint_u64_round_trip(suffix.len() as u64, e3 + suffix + value);
    let l2 = e2.len();
    assert(s.subrange((l1 + l2) as int, s.len() as int) =~= e3 + (suffix + value));
    lemma_varint_u64_round_trip(value.len() as u64, suffix + value);
    let h = l1 + l2 + e3.len();
    assert(s.subrange(h as int, (h + suffix.len()) as int) =~= suffix);
    assert(s.subrange((h + suffix.len()) as int, (h + suffix.len() + value.len()) as int) =~= value);
    assert(s.len() == h + suffix.len() + value.len());
}

/// One entry decodes to its key and value.
pub proof fn lemma_decode_entry(shared: nat, suffix: Seq<u8>, value: Seq<u8>, prev: Seq<u8>)
    requires
        shared <= prev.len(),
        shared <= u64::MAX,
        suffix.len() <= u64::MAX,
        value.len() <= u64::MAX,
    ensures
        decode_entries(entry_bytes(shared, suffix, value), prev) == Some(
            seq![(prev.subrange(0, shared as int) + suffix, value)],
        ),
{
    let s = entry_bytes(shared, suffix, value);
    lemma_parse_entry_bytes(shared, suffix, value);
    assert(varint_encode(shared).len() >= 1);
    assert(s.subrange(s.len() as int, s.len() as int) =~= Seq::<u8>::empty());
    let key = prev.subrange(0, shared as int) + suffix;
    assert(decode_entries(Seq::<u8>::empty(), key) == Some(Seq::<KeyValue>::empty()));
    assert(seq![(key, value)] + Seq::<KeyValue>::empty() =~= seq![(key, value)]);
}

/// Appending the bytes of the last entry extends the decoded entries by it.
#[verifier::rlimit(50)]
proof fn lemma_encode_step(es: Seq<KeyValue>, every: nat)
    requires
        es.len() > 0,
        es[es.len() - 1].0.len() <= u64::MAX,
        es[es.len() - 1].1.len() <= u64::MAX,
        decode_entries(encode_data(es.drop_last(), every), seq![]) == Some(es.drop_last()),
    ensures
        decode_entries(encode_data(es, every), seq![]) == Some(es),
{
    let n = es.len() - 1;
    let init = es.drop_last();
    lemma_decode_concat(encode_data(init, every), entry_at(es, n, every), seq![]);
    let prev = prev_key(es, n);
    assert(last_key(init, seq![]) == prev);
    let sh = shared_at(es, n, every);
    let k = es[n].0;
    lemma_common_prefix(prev, k);
    lemma_decode_entry(sh, k.subrange(sh as int, k.len() as int), es[n].1, prev);
    assert(prev.subrange(0, sh as int) + k.subrange(sh as int, k.len() as int) =~= k) by {
        if sh > 0 {
            assert(prev.subrange(0, sh as int) == k.subrange(0, sh as int));
        }
    }
    assert(init + seq![(k, es[n].1)] =~= es);
}

/// The entry region of a block decodes back to the entries written into it.
pub proof fn lemma_encode_decode(es: Seq<KeyValue>, every: nat)
    requires
        entries_fit(es),
    ensures
        decode_entries(encode_data(es, every), seq![]) == Some(es),
    decreases es.len(),
{
    if es.len() > 0 {
        let n = es.len() - 1;
        let init = es.drop_last();
        assert(entries_fit(init)) by {
            assert forall|i: int| 0 <= i < init.len() implies #[trigger] init[i].0.len() <= u64::MAX
                && init[i].1.len() <= u64::MAX by {
                assert(init[i] == es[i]);
            }
        }
        lemma_encode_decode(init, every);
        assert(es[n].0.len() <= u64::MAX && es[n].1.len() <= u64::MAX);
        lemma_encode_step(es, every);
    }
}

proof fn lemma_encode_data_take(es: Seq<KeyValue>, i: int, every: nat)
    requires
        0 <= i < es.len(),
    ensures
        encode_data(es.take(i + 1), every) == encode_data(es.take(i), every) + entry_at(es, i, every),
{
    let t = es.take(i + 1);
    assert(t.drop_last() =~= es.take(i));
    assert(entry_at(t, i, every) == entry_at(es, i, every)) by {
        assert(t[i] == es[i]);
        if i > 0 {
            assert(t[i - 1] == es[i - 1]);
        }
    }
}

proof fn lemma_encode_data_prefix(es: Seq<KeyValue>, i: int, every: nat)
    requires
        0 <= i <= es.len(),
    ensures
        encode_data(es, every).subrange(0, encode_data(es.take(i), every).len() as int) == encode_data(
            es.take(i),
            every,
        ),
        encode_data(es.take(i), every).len() <= encode_data(es, every).len(),
    decreases es.len() - i,
{
    if i == es.len() {
        assert(es.take(i) =~= es);
        assert(encode_data(es, every).subrange(0, encode_data(es, every).len() as int) =~= encode_data(es, every));
    } else {
        lemma_encode_data_prefix(es, i + 1, every);
        lemma_encode_data_take(es, i, every);
        let a = encode_data(es.take(i), every);
        let b = encode_data(es.take(i + 1), every);
        assert(b.subrange(0, a.len() as int) =~= a);
        assert(encode_data(es, every).subrange(0, a.len() as int) =~= b.subrange(0, a.len() as int));
    }
}

/// The restart offsets, with the entry index each one belongs to.
pub open spec fn restart_entries(es: Seq<KeyValue>, every: nat) -> Seq<nat>
    decreases es.len(),
{
    if es.len() == 0 {
        seq![0]
    } else {
        let r = restart_entries(es.drop_last(), every);
        if is_restart((es.len() - 1) as nat, every) {
            r.push((es.len() - 1) as nat)
        } else {
            r
        }
    }
}

proof fn lemma_restart_entries(es: Seq<KeyValue>, every: nat)
    ensures
        restart_entries(es, every).len() == restart_offsets(es, every).len(),
        restart_entries(es, every).len() >= 1,
        restart_entries(es, every)[0] == 0,
        forall|j: int| 0 <= j < restart_entries(es, every).len() ==> {
            let i = #[trigger] restart_entries(es, every)[j];
            &&& (i == 0 || (i < es.len() && is_restart(i, every)))
            &&& restart_offsets(es, every)[j] == encode_data(es.take(i as int), every).len()
        },
    decreases es.len(),
{
    if es.len() > 0 {
        let init = es.drop_last();
        lemma_restart_entries(init, every);
        assert(restart_entries(es, every)[0] == restart_entries(init, every)[0]);
        assert forall|j: int| 0 <= j < restart_entries(es, every).len() implies {
            let i = #[trigger] restart_entries(es, every)[j];
            &&& (i == 0 || (i < es.len() && is_restart(i, every)))
            &&& restart_offsets(es, every)[j] == encode_data(es.take(i as int), every).len()
        } by {
            let i = restart_entries(es, every)[j];
            if j < restart_entries(init, every).len() {
                assert(restart_entries(es, every)[j] == restart_entries(init, every)[j]);
                assert(restart_offsets(es, every)[j] == restart_offsets(init, every)[j]);
                assert(init.take(i as int) =~= es.take(i as int));
            } else {
                assert(i == es.len() - 1);
                assert(es.take(i as int) =~= init);
            }
        }
    } else {
        assert(es.take(0) =~= es);
    }
}

/// The entry at offset `r` of `d` parses and stores its key whole.
pub open spec fn unshared_at(d: Seq<u8>, r: nat) -> bool {
    parse_entry(d.subrange(r as int, d.len() as int)) matches Some((sh, _, _, _)) && sh == 0
}

/// At every restart offset of a non-empty block stands an entry whose shared
/// length is 0.
pub proof fn lemma_restart_entries_unshared(es: Seq<KeyValue>, every: nat)
    requires
        es.len() > 0,
        entries_fit(es),
    ensures
        forall|j: int|
            0 <= j < restart_offsets(es, every).len() ==> unshared_at(
                encode_data(es, every),
                #[trigger] restart_offsets(es, every)[j],
            ),
{
    lemma_restart_entries(es, every);
    let d = encode_data(es, every);
    assert forall|j: int| 0 <= j < restart_offsets(es, every).len() implies unshared_at(
        d,
        #[trigger] restart_offsets(es, every)[j],
    ) by {
        let i = restart_entries(es, every)[j] as int;
        let a = encode_data(es.take(i), every);
        let e = entry_at(es, i, every);
        lemma_encode_data_take(es, i, every);
        lemma_encode_data_prefix(es, i + 1, every);
        let b = encode_data(es.take(i + 1), every);
        let rest = d.subrange(b.len() as int, d.len() as int);
        assert(d =~= b + rest);
        assert(d.subrange(a.len() as int, d.len() as int) =~= e + rest);
        assert(shared_at(es, i, every) == 0) by {
            if i == 0 {
                let k = es[0].0;
                lemma_common_prefix(seq![], k);
            }
        }
        let k = es[i].0;
        assert(k.len() <= u64::MAX && es[i].1.len() <= u64::MAX);
        let suffix = k.subrange(0, k.len() as int);
        lemma_decode_entry(0, suffix, es[i].1, seq![]);
        lemma_parse_entry_prefix(e, rest);
    }
}

pub proof fn lemma_u32s_len(rs: Seq<nat>)
    ensures
        u32s_bytes(rs).len() == 4 * rs.len(),
    decreases rs.len(),
{
    if rs.len() > 0 {
        lemma_u32s_len(rs.drop_last());
        lemma_le_bytes_len(rs.last(), 4);
    }
}

/// A block holding entries has a non-empty entry region.
pub proof fn lemma_encode_data_len(es: Seq<KeyValue>, every: nat)
    ensures
        (encode_data(es, every).len() == 0) == (es.len() == 0),
{
    if es.len() > 0 {
        let n = es.len() - 1;
        let sh = shared_at(es, n, every);
        assert(varint_encode(sh).len() >= 1);
    }
}

/// Every restart offset lies within the entry region.
pub proof fn lemma_restart_offsets_bound(es: Seq<KeyValue>, every: nat)
    ensures
        restart_offsets(es, every).len() >= 1,
        forall|j: int| 0 <= j < restart_offsets(es, every).len() ==> #[trigger] restart_offsets(es, every)[j] <= encode_data(es, every).len(),
    decreases es.len(),
{
    if es.len() > 0 {
        lemma_restart_offsets_bound(es.drop_last(), every);
    }
}

/// The restart array as bytes: stored offset `j` reads back as the `j`-th offset.
proof fn lemma_u32s_bytes(rs: Seq<nat>)
    requires
        forall|j: int| 0 <= j < rs.len() ==> rs[j] < 0x1_0000_0000,
    ensures
        u32s_bytes(rs).len() == 4 * rs.len(),
        forall|j: int| 0 <= j < rs.len() ==> #[trigger] le_value(u32s_bytes(rs).subrange(4 * j, 4 * j + 4)) == rs[j],
    decreases rs.len(),
{
    if rs.len() > 0 {
        let init = rs.drop_last();
        lemma_u32s_bytes(init);
        reveal_with_fuel(pow256, 5);
        lemma_le_round_trip(rs.last(), 4);
        let a = u32s_bytes(init);
        let b = le_bytes(rs.last(), 4);
        assert forall|j: int| 0 <= j < rs.len() implies #[trigger] le_value(u32s_bytes(rs).subrange(4 * j, 4 * j + 4)) == rs[j] by {
            if j < init.len() {
                assert((a + b).subrange(4 * j, 4 * j + 4) =~= a.subrange(4 * j, 4 * j + 4));
                assert(init[j] == rs[j]);
            } else {
                assert((a + b).subrange(4 * j, 4 * j + 4) =~= b);
            }
        }
    }
}

/// The keys of `es` ascend strictly.
pub open spec fn keys_ascending(es: Seq<KeyValue>) -> bool {
    forall|i: int, j: int| 0 <= i < j < es.len() ==> lex_lt(#[trigger] es[i].0, #[trigger] es[j].0)
}

proof fn lemma_lex_lt_irreflexive(a: Seq<u8>)
    ensures
        !lex_lt(a, a),
{
    lemma_common_prefix(a, a);
}

/// Looking up a key finds the value stored with it, where keys are distinct.
pub proof fn lemma_find_value(es: Seq<KeyValue>, k: Seq<u8>)
    requires
        keys_ascending(es),
    ensures
        forall|i: int| 0 <= i < es.len() && es[i].0 == k ==> find_value(es, k) == Some(es[i].1),
        (forall|i: int| 0 <= i < es.len() ==> es[i].0 != k) ==> find_value(es, k) is None,
    decreases es.len(),
{
    if es.len() > 0 {
        let t = es.drop_first();
        assert(keys_ascending(t)) by {
            assert forall|i: int, j: int| 0 <= i < j < t.len() implies lex_lt(#[trigger] t[i].0, #[trigger] t[j].0) by {
                assert(t[i] == es[i + 1] && t[j] == es[j + 1]);
            }
        }
        lemma_find_value(t, k);
        assert forall|i: int| 0 <= i < es.len() && es[i].0 == k implies find_value(es, k) == Some(es[i].1) by {
            if i > 0 {
                assert(lex_lt(es[0].0, es[i].0));
                lemma_lex_lt_irreflexive(k);
                assert(t[i - 1] == es[i]);
            }
        }
        if forall|i: int| 0 <= i < es.len() ==> es[i].0 != k {
            assert forall|i: int| 0 <= i < t.len() implies t[i].0 != k by {
                assert(t[i] == es[i + 1]);
            }
            assert(es[0].0 != k);
        }
    }
}

/// In a block holding entries, every restart offset points at an entry,
/// strictly inside the entry region.
pub proof fn lemma_restart_offsets_inside(es: Seq<KeyValue>, every: nat)
    requires
        es.len() > 0,
    ensures
        forall|j: int| 0 <= j < restart_offsets(es, every).len() ==> #[trigger] restart_offsets(es, every)[j] < encode_data(es, every).len(),
{
    lemma_restart_entries(es, every);
    assert forall|j: int| 0 <= j < restart_offsets(es, every).len() implies #[trigger] restart_offsets(es, every)[j] < encode_data(es, every).len() by {
        let i = restart_entries(es, every)[j] as int;
        assert(0 <= i < es.len());
        lemma_encode_data_take(es, i, every);
        lemma_encode_data_prefix(es, i + 1, every);
        let sh = shared_at(es, i, every);
        assert(varint_encode(sh).len() >= 1);
    }
}

/// A finalized block reads back as the entries written into it.
#[verifier::rlimit(50)]
pub proof fn lemma_block_round_trip(es: Seq<KeyValue>, every: nat)
    requires
        es.len() > 0,
        entries_fit(es),
        block_image(es, every).len() <= u32::MAX,
    ensures
        block_entries(block_image(es, every)) == Some(es),
        block_restart_count(block_image(es, every)) == Some(restart_offsets(es, every).len()),
{
    let rs = restart_offsets(es, every);
    let d = encode_data(es, every);
    let u = u32s_bytes(rs);
    let l = le_bytes(rs.len(), 4);
    let b = block_image(es, every);
    lemma_restart_offsets_bound(es, every);
    lemma_restart_offsets_inside(es, every);
    lemma_u32s_bytes(rs);
    lemma_le_bytes_len(rs.len(), 4);
    reveal_with_fuel(pow256, 5);
    lemma_le_round_trip(rs.len(), 4);
    assert(b.subrange(b.len() - 4, b.len() as int) =~= l);
    let c = rs.len();
    assert(block_restart_count(b) == Some(c));
    assert(data_end(b, c) == d.len());
    assert forall|j: int| 0 <= j < c implies stored_restart(b, c, j) < data_end(b, c) by {
        assert(b.subrange(d.len() + 4 * j, d.len() + 4 * j + 4) =~= u.subrange(4 * j, 4 * j + 4));
        assert(le_value(u.subrange(4 * j, 4 * j + 4)) == rs[j]);
    }
    assert(b.subrange(0, d.len() as int) =~= d);
    lemma_encode_decode(es, every);
}

/// A block written from entries with strictly ascending keys reads back as
/// those entries, in order; a lookup of an entry's key finds its value, and
/// a lookup of any other key finds nothing.
pub proof fn lemma_block_lookup(es: Seq<KeyValue>, every: nat, k: Seq<u8>)
    requires
        es.len() > 0,
        keys_ascending(es),
        entries_fit(es),
        block_image(es, every).len() <= u32::MAX,
    ensures
        block_entries(block_image(es, every)) == Some(es),
        forall|i: int| 0 <= i < es.len() ==> find_value(es, #[trigger] es[i].0) == Some(es[i].1),
        (forall|i: int| 0 <= i < es.len() ==> es[i].0 != k) ==> find_value(es, k) is None,
{
    lemma_block_round_trip(es, every);
    lemma_find_value(es, k);
    assert forall|i: int| 0 <= i < es.len() implies find_value(es, #[trigger] es[i].0) == Some(es[i].1) by {
        lemma_find_value(es, es[i].0);
    }
}

/// Filtering a concatenation filters each part.
pub proof fn lemma_entries_from_concat(a: Seq<KeyValue>, b: Seq<KeyValue>, from: Seq<u8>)
    ensures
        entries_from(a + b, from) == entries_from(a, from) + entries_from(b, from),
    decreases b.len(),
{
    if b.len() == 0 {
        assert(a + b =~= a);
        assert(entries_from(a, from) + Seq::<KeyValue>::empty() =~= entries_from(a, from));
    } else {
        assert((a + b).drop_last() =~= a + b.drop_last());
        assert((a + b).last() == b.last());
        lemma_entries_from_concat(a, b.drop_last(), from);
        let x = entries_from(a, from);
        let y = entries_from(b.drop_last(), from);
        if !lex_lt(b.last().0, from) {
            assert((x + y).push(b.last()) =~= x + y.push(b.last()));
        }
    }
}

/// A block whose keys all sort below `from` contributes nothing.
pub proof fn lemma_entries_from_below(es: Seq<KeyValue>, from: Seq<u8>)
    requires
        forall|i: int| 0 <= i < es.len() ==> lex_lt(#[trigger] es[i].0, from),
    ensures
        entries_from(es, from) == Seq::<KeyValue>::empty(),
    decreases es.len(),
{
    if es.len() > 0 {
        let init = es.drop_last();
        assert forall|i: int| 0 <= i < init.len() implies lex_lt(#[trigger] init[i].0, from) by {
            assert(init[i] == es[i]);
        }
        lemma_entries_from_below(init, from);
        assert(lex_lt(es[es.len() - 1].0, from));
    }
}

/// The key stored whole at offset `off` of the entry region `d`: the entry
/// there must share nothing with a previous key.
pub open spec fn restart_key(d: Seq<u8>, off: nat) -> Option<Seq<u8>> {
    if off <= d.len() {
        match parse_entry(d.subrange(off as int, d.len() as int)) {
            Some((sh, suffix, _, _)) => if sh == 0 {
                Some(suffix)
            } else {
                None
            },
            None => None,
        }
    } else {
        None
    }
}

/// Bisection over the restart offsets `rs[lo..hi]`: the restart where a scan
/// for keys from `from` starts, keeping to the left the restarts whose key is
/// not above `from`.
pub open spec fn seek(d: Seq<u8>, rs: Seq<nat>, from: Seq<u8>, lo: nat, hi: nat) -> Option<nat>
    decreases hi - lo,
{
    if lo + 1 >= hi {
        Some(lo)
    } else {
        let mid = ((lo + hi) / 2) as nat;
        match restart_key(d, rs[mid as int]) {
            Some(k) => if lex_lt(from, k) {
                seek(d, rs, from, lo, mid)
            } else {
                seek(d, rs, from, mid, hi)
            },
            None => None,
        }
    }
}

/// The entries a seek for `from` yields: those decoded from the restart the
/// bisection finds, with keys not below `from`; `None` where a probed or the
/// chosen restart does not decode.
pub open spec fn seek_entries(d: Seq<u8>, rs: Seq<nat>, from: Seq<u8>) -> Option<Seq<KeyValue>> {
    if rs.len() == 0 {
        None
    } else {
        match seek(d, rs, from, 0, rs.len()) {
            Some(i) => if rs[i as int] <= d.len() {
                match decode_entries(d.subrange(rs[i as int] as int, d.len() as int), seq![]) {
                    Some(es) => Some(entries_from(es, from)),
                    None => None,
                }
            } else {
                None
            },
            None => None,
        }
    }
}

/// Where entry `i` starts in the entry region of a block holding `es`.
pub open spec fn entry_offset(es: Seq<KeyValue>, i: int, every: nat) -> nat {
    encode_data(es.take(i), every).len()
}

/// The entry region from entry `i` on: entry `i`, then the region from entry `i + 1`.
proof fn lemma_split_at(es: Seq<KeyValue>, every: nat, i: int)
    requires
        0 <= i < es.len(),
    ensures
        entry_offset(es, i + 1, every) == entry_offset(es, i, every) + entry_at(es, i, every).len(),
        entry_offset(es, i + 1, every) <= encode_data(es, every).len(),
        encode_data(es, every).subrange(entry_offset(es, i, every) as int, encode_data(es, every).len() as int)
            == entry_at(es, i, every) + encode_data(es, every).subrange(
            entry_offset(es, i + 1, every) as int,
            encode_data(es, every).len() as int,
        ),
{
    let d = encode_data(es, every);
    lemma_encode_data_take(es, i, every);
    lemma_encode_data_prefix(es, i + 1, every);
    let a = entry_at(es, i, every);
    let o = entry_offset(es, i, every);
    let o1 = entry_offset(es, i + 1, every);
    let pre1 = d.subrange(0, o1 as int);
    assert(pre1 == encode_data(es.take(i), every) + a);
    assert(d.subrange(o as int, o1 as int) =~= pre1.subrange(o as int, o1 as int));
    assert(pre1.subrange(o as int, o1 as int) =~= a);
    assert(d.subrange(o as int, d.len() as int) =~= d.subrange(o as int, o1 as int) + d.subrange(o1 as int, d.len() as int));
}

/// Entry `i` decodes, after the key of entry `i - 1`, to itself.
#[verifier::spinoff_prover]
proof fn lemma_decode_entry_at(es: Seq<KeyValue>, every: nat, i: int)
    requires
        entries_fit(es),
        0 <= i < es.len(),
    ensures
        decode_entries(entry_at(es, i, every), prev_key(es, i)) == Some(seq![es[i]]),
{
    let prev = prev_key(es, i);
    let sh = shared_at(es, i, every);
    let k = es[i].0;
    lemma_common_prefix(prev, k);
    assert(k.len() <= u64::MAX && es[i].1.len() <= u64::MAX);
    lemma_decode_entry(sh, k.subrange(sh as int, k.len() as int), es[i].1, prev);
    assert(prev.subrange(0, sh as int) + k.subrange(sh as int, k.len() as int) =~= k) by {
        if sh > 0 {
            assert(prev.subrange(0, sh as int) == k.subrange(0, sh as int));
        }
    }
}

/// The entry region from entry `i` on decodes, after the key of entry
/// `i - 1`, to the entries from `i` on.
#[verifier::spinoff_prover]
#[verifier::rlimit(100)]
proof fn lemma_decode_suffix(es: Seq<KeyValue>, every: nat, i: int)
    requires
        entries_fit(es),
        0 <= i <= es.len(),
    ensures
        entry_offset(es, i, every) <= encode_data(es, every).len(),
        decode_entries(
            encode_data(es, every).subrange(entry_offset(es, i, every) as int, encode_data(es, every).len() as int),
            prev_key(es, i),
        ) == Some(es.subrange(i, es.len() as int)),
    decreases es.len() - i,
{
    let d = encode_data(es, every);
    let n = es.len();
    lemma_encode_data_prefix(es, i, every);
    if i == n {
        assert(es.take(i) =~= es);
        assert(d.subrange(d.len() as int, d.len() as int) =~= Seq::<u8>::empty());
        assert(es.subrange(i, n as int) =~= Seq::<KeyValue>::empty());
    } else {
        lemma_split_at(es, every, i);
        lemma_decode_suffix(es, every, i + 1);
        let a = entry_at(es, i, every);
        let rest = d.subrange(entry_offset(es, i + 1, every) as int, d.len() as int);
        let prev = prev_key(es, i);
        lemma_decode_entry_at(es, every, i);
        lemma_decode_concat(a, rest, prev);
        assert(last_key(seq![es[i]], prev) == prev_key(es, i + 1));
        assert(seq![es[i]] + es.subrange(i + 1, n as int) =~= es.subrange(i, n as int));
    }
}

/// An entry that stores its key whole decodes the same after any key.
proof fn lemma_decode_unshared(s: Seq<u8>, p1: Seq<u8>, p2: Seq<u8>)
    requires
        parse_entry(s) matches Some((sh, _, _, _)) && sh == 0,
    ensures
        decode_entries(s, p1) == decode_entries(s, p2),
{
    if s.len() == 0 {
        assert(varint_decode(s) is None);
    }
    let (sh, suffix, value, n) = parse_entry(s).unwrap();
    assert(p1.subrange(0, 0) + suffix =~= suffix);
    assert(p2.subrange(0, 0) + suffix =~= suffix);
}

/// At the offset of a restart entry, the key is stored whole and decoding
/// from there needs no earlier key.
proof fn lemma_restart_at(es: Seq<KeyValue>, every: nat, i: int)
    requires
        entries_fit(es),
        0 <= i < es.len(),
        i == 0 || is_restart(i as nat, every),
    ensures
        entry_offset(es, i, every) <= encode_data(es, every).len(),
        restart_key(encode_data(es, every), entry_offset(es, i, every)) == Some(es[i].0),
        decode_entries(
            encode_data(es, every).subrange(entry_offset(es, i, every) as int, encode_data(es, every).len() as int),
            seq![],
        ) == Some(es.subrange(i, es.len() as int)),
{
    let d = encode_data(es, every);
    let k = es[i].0;
    assert(shared_at(es, i, every) == 0) by {
        if i == 0 {
            lemma_common_prefix(seq![], k);
        }
    }
    lemma_split_at(es, every, i);
    lemma_decode_suffix(es, every, i);
    let a = entry_at(es, i, every);
    let rest = d.subrange(entry_offset(es, i + 1, every) as int, d.len() as int);
    assert(k.len() <= u64::MAX && es[i].1.len() <= u64::MAX);
    assert(k.subrange(0, k.len() as int) =~= k);
    lemma_parse_entry_bytes(0, k, es[i].1);
    lemma_parse_entry_prefix(a, rest);
    let s = d.subrange(entry_offset(es, i, every) as int, d.len() as int);
    lemma_decode_unshared(s, seq![], prev_key(es, i));
}

/// The bisection finds a restart with a key not above `from`, or the first,
/// wherever every restart's key decodes.
proof fn lemma_seek_finds(d: Seq<u8>, rs: Seq<nat>, from: Seq<u8>, lo: nat, hi: nat)
    requires
        lo < hi <= rs.len(),
        forall|t: int| 0 <= t < rs.len() ==> #[trigger] restart_key(d, rs[t]) is Some,
        lo == 0 || !lex_lt(from, restart_key(d, rs[lo as int]).unwrap()),
    ensures
        seek(d, rs, from, lo, hi) matches Some(i) && lo <= i < hi && (i == 0 || !lex_lt(from, restart_key(d, rs[i as int]).unwrap())),
    decreases hi - lo,
{
    if lo + 1 < hi {
        let mid = ((lo + hi) / 2) as nat;
        assert(restart_key(d, rs[mid as int]) is Some);
        let k = restart_key(d, rs[mid as int]).unwrap();
        if lex_lt(from, k) {
            lemma_seek_finds(d, rs, from, lo, mid);
        } else {
            lemma_seek_finds(d, rs, from, mid, hi);
        }
    }
}

/// The restart array of a finalized block: 0, then the writer's offsets.
proof fn lemma_block_restarts(es: Seq<KeyValue>, every: nat)
    requires
        es.len() > 0,
        entries_fit(es),
        block_image(es, every).len() <= u32::MAX,
    ensures
        block_restart_count(block_image(es, every)) == Some(restart_offsets(es, every).len()),
        block_data(block_image(es, every)) == encode_data(es, every),
        block_restarts(block_image(es, every), restart_offsets(es, every).len()).len() == restart_offsets(es, every).len() + 1,
        forall|t: int|
            0 < t <= restart_offsets(es, every).len() ==> #[trigger] block_restarts(
                block_image(es, every),
                restart_offsets(es, every).len(),
            )[t] == restart_offsets(es, every)[t - 1],
        block_restarts(block_image(es, every), restart_offsets(es, every).len())[0] == 0,
{
    let rs = restart_offsets(es, every);
    let d = encode_data(es, every);
    let u = u32s_bytes(rs);
    let b = block_image(es, every);
    lemma_block_round_trip(es, every);
    lemma_restart_offsets_bound(es, every);
    lemma_u32s_bytes(rs);
    let c = rs.len();
    lemma_u32s_len(rs);
    lemma_le_bytes_len(c, 4);
    assert(data_end(b, c) == d.len());
    assert(b.subrange(0, d.len() as int) =~= d);
    assert forall|t: int| 0 < t <= c implies #[trigger] block_restarts(b, c)[t] == rs[t - 1] by {
        let j = t - 1;
        assert(block_restarts(b, c)[t] == stored_restart(b, c, j));
        assert(b.subrange(d.len() + 4 * j, d.len() + 4 * j + 4) =~= u.subrange(4 * j, 4 * j + 4));
        assert(le_value(u32s_bytes(rs).subrange(4 * j, 4 * j + 4)) == rs[j]);
    }
}

/// On a block written from entries with ascending keys, a seek for `from`
/// yields exactly the entries whose key is not below `from`.
#[verifier::spinoff_prover]
#[verifier::rlimit(100)]
pub proof fn lemma_block_seek(es: Seq<KeyValue>, every: nat, from: Seq<u8>)
    requires
        es.len() > 0,
        keys_ascending(es),
        entries_fit(es),
        block_image(es, every).len() <= u32::MAX,
    ensures
        seek_entries(
            block_data(block_image(es, every)),
            block_restarts(block_image(es, every), block_restart_count(block_image(es, every)).unwrap()),
            from,
        ) == Some(entries_from(es, from)),
{
    let b = block_image(es, every);
    let d = encode_data(es, every);
    let ro = restart_offsets(es, every);
    let c = ro.len();
    lemma_block_restarts(es, every);
    lemma_restart_entries(es, every);
    let rs = block_restarts(b, c);
    let re = restart_entries(es, every);
    // The entry each restart belongs to.
    let ent = |t: int| if t == 0 { 0int } else { re[t - 1] as int };
    assert forall|t: int| 0 <= t < rs.len() implies {
        &&& 0 <= #[trigger] ent(t) < es.len()
        &&& (ent(t) == 0 || is_restart(ent(t) as nat, every))
        &&& rs[t] == entry_offset(es, ent(t), every)
    } by {
        if t == 0 {
            assert(es.take(0) =~= Seq::<KeyValue>::empty());
        } else {
            assert(rs[t] == ro[t - 1]);
            assert(re[t - 1] == re[t - 1]);
        }
    }
    assert forall|t: int| 0 <= t < rs.len() implies #[trigger] restart_key(d, rs[t]) is Some by {
        assert(0 <= ent(t) < es.len());
        lemma_restart_at(es, every, ent(t));
    }
    lemma_seek_finds(d, rs, from, 0, rs.len());
    let i = seek(d, rs, from, 0, rs.len()).unwrap() as int;
    let e = ent(i);
    lemma_restart_at(es, every, e);
    assert(seek_entries(d, rs, from) == Some(entries_from(es.subrange(e, es.len() as int), from)));
    // Entries before the restart sort below `from`.
    if e == 0 {
        assert(es.subrange(0, es.len() as int) =~= es);
    } else {
        assert(i != 0);
        let ke = es[e].0;
        assert(restart_key(d, rs[i]).unwrap() == ke);
        crate::bytes::lemma_lex_lt_total(ke, from);
        let pre = es.subrange(0, e);
        assert forall|u: int| 0 <= u < pre.len() implies lex_lt(#[trigger] pre[u].0, from) by {
            assert(pre[u] == es[u]);
            assert(lex_lt(es[u].0, ke));
            if ke != from {
                crate::bytes::lemma_lex_lt_transitive(es[u].0, ke, from);
            }
        }
        lemma_entries_from_below(pre, from);
        lemma_entries_from_concat(pre, es.subrange(e, es.len() as int), from);
        assert(pre + es.subrange(e, es.len() as int) =~= es);
        assert(Seq::<KeyValue>::empty() + entries_from(es.subrange(e, es.len() as int), from) =~= entries_from(
            es.subrange(e, es.len() as int),
            from,
        ));
    }
}

/// In entries with ascending keys, the first entry not below `k` has key `k`
/// exactly when `k` is stored, and then holds its value.
pub proof fn lemma_first_from(es: Seq<KeyValue>, k: Seq<u8>)
    requires
        keys_ascending(es),
    ensures
        (if entries_from(es, k).len() > 0 && entries_from(es, k)[0].0 == k {
            Some(entries_from(es, k)[0].1)
        } else {
            None
        }) == find_value(es, k),
    decreases es.len(),
{
    if es.len() > 0 {
        let t = es.drop_first();
        let x = es[0];
        assert(keys_ascending(t)) by {
            assert forall|i: int, j: int| 0 <= i < j < t.len() implies lex_lt(#[trigger] t[i].0, #[trigger] t[j].0) by {
                assert(t[i] == es[i + 1] && t[j] == es[j + 1]);
            }
        }
        lemma_first_from(t, k);
        assert(es =~= seq![x] + t);
        lemma_entries_from_concat(seq![x], t, k);
        assert(seq![x].drop_last() =~= Seq::<KeyValue>::empty());
        assert(seq![x].last() == x);
        assert(entries_from(Seq::<KeyValue>::empty(), k) == Seq::<KeyValue>::empty());
        assert(Seq::<KeyValue>::empty().push(x) =~= seq![x]);
        if lex_lt(x.0, k) {
            assert(entries_from(seq![x], k) =~= Seq::<KeyValue>::empty());
            assert(Seq::<KeyValue>::empty() + entries_from(t, k) =~= entries_from(t, k));
            assert(x.0 != k) by {
                crate::bytes::lemma_lex_lt_irreflexive(k);
            }
        } else {
            assert(entries_from(seq![x], k) =~= seq![x]);
            assert((seq![x] + entries_from(t, k))[0] == x);
            if x.0 != k {
                lemma_find_value(t, k);
                crate::bytes::lemma_lex_lt_total(x.0, k);
                assert forall|i: int| 0 <= i < t.len() implies t[i].0 != k by {
                    assert(t[i] == es[i + 1]);
                    assert(lex_lt(es[0].0, es[i + 1].0));
                    crate::bytes::lemma_lex_lt_transitive(k, x.0, t[i].0);
                    crate::bytes::lemma_lex_lt_irreflexive(k);
                }
            }
        }
    }
}

} // verus!
