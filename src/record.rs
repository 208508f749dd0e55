//! The record format shared by the write-ahead log and the snapshot files:
//! `[2-byte key length][key][2-byte value length or tombstone][value]`,
//! concatenated end to end.

use vstd::prelude::*;
use vstd::slice::{slice_subrange, slice_to_vec};

verus! {

/// Length field that stands for an absent value (a tombstone).
pub const NONE_VALUE_LEN: u16 = 0xffff;

/// The store as a map from keys to the values present.
pub type KvMap = Map<Seq<u8>, Seq<u8>>;

/// Applies one mutation: a present value is written, an absent one erases the key.
pub open spec fn apply(m: KvMap, key: Seq<u8>, value: Option<Seq<u8>>) -> KvMap {
    match value {
        Some(v) => m.insert(key, v),
        None => m.remove(key),
    }
}

/// Applies a sequence of mutations in order.
pub open spec fn replay(m: KvMap, rs: Seq<(Seq<u8>, Option<Seq<u8>>)>) -> KvMap
    decreases rs.len(),
{
    if rs.len() == 0 {
        m
    } else {
        replay(apply(m, rs[0].0, rs[0].1), rs.drop_first())
    }
}

/// The two bytes of a length field: the low 15 bits of `n`, big-endian.
pub open spec fn len_field(n: nat) -> Seq<u8> {
    seq![((n % 0x8000) / 0x100) as u8, (n % 0x100) as u8]
}

/// The bytes of a value field: its length and its bytes, or the tombstone.
pub open spec fn value_field(value: Option<Seq<u8>>) -> Seq<u8> {
    match value {
        Some(v) => len_field(v.len()) + v,
        None => seq![0xffu8, 0xffu8],
    }
}

/// The bytes of one record.
pub open spec fn record_bytes(key: Seq<u8>, value: Option<Seq<u8>>) -> Seq<u8> {
    len_field(key.len()) + key + value_field(value)
}

/// The bytes of a sequence of records.
pub open spec fn records_bytes(rs: Seq<(Seq<u8>, Option<Seq<u8>>)>) -> Seq<u8>
    decreases rs.len(),
{
    if rs.len() == 0 {
        Seq::empty()
    } else {
        record_bytes(rs[0].0, rs[0].1) + records_bytes(rs.drop_first())
    }
}

/// The bytes of a single record, as a sequence of one.
pub proof fn lemma_records_bytes_one(r: (Seq<u8>, Option<Seq<u8>>))
    ensures
        records_bytes(seq![r]) == record_bytes(r.0, r.1),
{
    assert(seq![r].drop_first() =~= Seq::<(Seq<u8>, Option<Seq<u8>>)>::empty());
    assert(seq![r][0] == r);
    assert(records_bytes(Seq::<(Seq<u8>, Option<Seq<u8>>)>::empty()) == Seq::<u8>::empty());
    assert(record_bytes(r.0, r.1) + Seq::<u8>::empty() =~= record_bytes(r.0, r.1));
}

/// The bytes of two sequences of records laid end to end.
pub proof fn lemma_records_bytes_concat(
    a: Seq<(Seq<u8>, Option<Seq<u8>>)>,
    b: Seq<(Seq<u8>, Option<Seq<u8>>)>,
)
    ensures
        records_bytes(a + b) == records_bytes(a) + records_bytes(b),
    decreases a.len(),
{
    if a.len() == 0 {
        assert(a + b =~= b);
        assert(records_bytes(a) + records_bytes(b) =~= records_bytes(b));
    } else {
        lemma_records_bytes_concat(a.drop_first(), b);
        assert((a + b).drop_first() =~= a.drop_first() + b);
        assert((a + b)[0] == a[0]);
        assert(records_bytes(a + b) =~= records_bytes(a) + records_bytes(b));
    }
}

/// The big-endian 16-bit number at `i`.
pub open spec fn be16(b: Seq<u8>, i: int) -> int {
    (b[i] as int) * 0x100 + (b[i + 1] as int)
}

/// The records at the front of `b`, in order; a trailing record that is cut
/// short is left out.
pub open spec fn parse_records(b: Seq<u8>) -> Seq<(Seq<u8>, Option<Seq<u8>>)>
    decreases b.len(),
{
    if b.len() < 2 {
        Seq::empty()
    } else {
        let kl = be16(b, 0) % 0x8000;
        if b.len() < kl + 4 {
            Seq::empty()
        } else {
            let key = b.subrange(2, kl + 2);
            let vl = be16(b, kl + 2);
            if vl == 0xffff {
                seq![(key, None::<Seq<u8>>)] + parse_records(b.subrange(kl + 4, b.len() as int))
            } else if b.len() < kl + 4 + vl % 0x8000 {
                Seq::empty()
            } else {
                let end = kl + 4 + vl % 0x8000;
                seq![(key, Some(b.subrange(kl + 4, end)))] + parse_records(
                    b.subrange(end, b.len() as int),
                )
            }
        }
    }
}

/// The value `m` holds under `k`, `None` if it holds none.
pub open spec fn get_opt(m: KvMap, k: Seq<u8>) -> Option<Seq<u8>> {
    if m.contains_key(k) {
        Some(m[k])
    } else {
        None
    }
}

/// The last value that `rs` writes to `k`, `None` if it never writes `k`.
pub open spec fn last_write(rs: Seq<(Seq<u8>, Option<Seq<u8>>)>, k: Seq<u8>) -> Option<
    Option<Seq<u8>>,
>
    decreases rs.len(),
{
    if rs.len() == 0 {
        None
    } else {
        match last_write(rs.drop_first(), k) {
            Some(v) => Some(v),
            None => if rs[0].0 == k {
                Some(rs[0].1)
            } else {
                None
            },
        }
    }
}

/// After a replay, a key holds the last value written to it, or what it held before.
pub proof fn lemma_replay_get(m: KvMap, rs: Seq<(Seq<u8>, Option<Seq<u8>>)>, k: Seq<u8>)
    ensures
        get_opt(replay(m, rs), k) == match last_write(rs, k) {
            Some(v) => v,
            None => get_opt(m, k),
        },
    decreases rs.len(),
{
    if rs.len() > 0 {
        lemma_replay_get(apply(m, rs[0].0, rs[0].1), rs.drop_first(), k);
    }
}

/// The last write of two sequences laid end to end.
pub proof fn lemma_last_write_concat(
    a: Seq<(Seq<u8>, Option<Seq<u8>>)>,
    b: Seq<(Seq<u8>, Option<Seq<u8>>)>,
    k: Seq<u8>,
)
    ensures
        last_write(a + b, k) == match last_write(b, k) {
            Some(v) => Some(v),
            None => last_write(a, k),
        },
    decreases a.len(),
{
    if a.len() == 0 {
        assert(a + b =~= b);
    } else {
        lemma_last_write_concat(a.drop_first(), b, k);
        assert((a + b).drop_first() =~= a.drop_first() + b);
        assert((a + b)[0] == a[0]);
    }
}

/// A key written with a value holds that value right after.
pub proof fn lemma_set_then_get(m: KvMap, k: Seq<u8>, v: Seq<u8>)
    ensures
        get_opt(apply(m, k, Some(v)), k) == Some(v),
{
}

/// A key written with a value and then with none holds none.
pub proof fn lemma_tombstone(m: KvMap, k: Seq<u8>, v: Seq<u8>)
    ensures
        get_opt(apply(apply(m, k, Some(v)), k, None), k) is None,
{
}

/// Starting from an empty store, a key that no write has named holds none.
pub proof fn lemma_get_before_set(rs: Seq<(Seq<u8>, Option<Seq<u8>>)>, k: Seq<u8>)
    requires
        forall|i: int| 0 <= i < rs.len() ==> (#[trigger] rs[i]).0 != k,
    ensures
        get_opt(replay(Map::empty(), rs), k) is None,
{
    lemma_no_write(rs, k);
    lemma_replay_get(Map::empty(), rs, k);
}

proof fn lemma_no_write(rs: Seq<(Seq<u8>, Option<Seq<u8>>)>, k: Seq<u8>)
    requires
        forall|i: int| 0 <= i < rs.len() ==> (#[trigger] rs[i]).0 != k,
    ensures
        last_write(rs, k) is None,
    decreases rs.len(),
{
    if rs.len() > 0 {
        assert forall|i: int| 0 <= i < rs.drop_first().len() implies (
        #[trigger] rs.drop_first()[i]).0 != k by {
            assert(rs.drop_first()[i] == rs[i + 1]);
        }
        lemma_no_write(rs.drop_first(), k);
        assert(rs[0].0 != k);
    }
}

/// Whether a write names `k`.
pub open spec fn names(k: Seq<u8>) -> spec_fn((Seq<u8>, Option<Seq<u8>>)) -> bool {
    |r: (Seq<u8>, Option<Seq<u8>>)| r.0 == k
}

/// The writes that name `k`, in their order.
pub open spec fn writes_to(rs: Seq<(Seq<u8>, Option<Seq<u8>>)>, k: Seq<u8>) -> Seq<
    (Seq<u8>, Option<Seq<u8>>),
> {
    rs.filter(names(k))
}

proof fn lemma_last_write_filter(rs: Seq<(Seq<u8>, Option<Seq<u8>>)>, k: Seq<u8>)
    ensures
        last_write(writes_to(rs, k), k) == last_write(rs, k),
    decreases rs.len(),
{
    let p = names(k);
    if rs.len() == 0 {
        reveal(Seq::filter);
        assert(writes_to(rs, k) =~= rs);
    } else {
        let head = rs[0];
        let tail = rs.drop_first();
        assert(rs =~= seq![head] + tail);
        tail.lemma_filter_prepend(head, p);
        lemma_last_write_filter(tail, k);
        let front = if p(head) {
            seq![head]
        } else {
            Seq::empty()
        };
        lemma_last_write_concat(front, writes_to(tail, k), k);
        if p(head) {
            assert(front.drop_first() =~= Seq::<(Seq<u8>, Option<Seq<u8>>)>::empty());
            assert(last_write(front.drop_first(), k) is None);
        }
    }
}

/// Writes to other keys do not change what a key holds: replaying any
/// interleaving gives a key the value that replaying its own writes alone
/// gives it.
pub proof fn lemma_disjoint_keys(m: KvMap, rs: Seq<(Seq<u8>, Option<Seq<u8>>)>, k: Seq<u8>)
    ensures
        get_opt(replay(m, rs), k) == get_opt(replay(m, writes_to(rs, k)), k),
{
    lemma_replay_get(m, rs, k);
    lemma_replay_get(m, writes_to(rs, k), k);
    lemma_last_write_filter(rs, k);
}

/// Two maps that agree on every key are equal.
pub proof fn lemma_get_opt_ext(m1: KvMap, m2: KvMap)
    requires
        forall|k: Seq<u8>| #[trigger] get_opt(m1, k) == get_opt(m2, k),
    ensures
        m1 == m2,
{
    assert forall|k: Seq<u8>| m1.contains_key(k) == m2.contains_key(k) by {
        assert(get_opt(m1, k) == get_opt(m2, k));
    }
    assert forall|k: Seq<u8>| m1.contains_key(k) implies m1[k] == m2[k] by {
        assert(get_opt(m1, k) == get_opt(m2, k));
    }
    assert(m1 =~= m2);
}

/// Replaying the same records a second time changes nothing: re-applying a
/// mutation that was already applied is harmless.
pub proof fn lemma_replay_twice(m: KvMap, rs: Seq<(Seq<u8>, Option<Seq<u8>>)>)
    ensures
        replay(replay(m, rs), rs) == replay(m, rs),
{
    assert forall|k: Seq<u8>| #[trigger] get_opt(replay(replay(m, rs), rs), k) == get_opt(
        replay(m, rs),
        k,
    ) by {
        lemma_replay_get(replay(m, rs), rs, k);
        lemma_replay_get(m, rs, k);
    }
    lemma_get_opt_ext(replay(replay(m, rs), rs), replay(m, rs));
}

/// Replaying two sequences one after the other is replaying them laid end to end.
pub proof fn lemma_replay_concat(
    m: KvMap,
    a: Seq<(Seq<u8>, Option<Seq<u8>>)>,
    b: Seq<(Seq<u8>, Option<Seq<u8>>)>,
)
    ensures
        replay(replay(m, a), b) == replay(m, a + b),
    decreases a.len(),
{
    if a.len() == 0 {
        assert(a + b =~= b);
    } else {
        lemma_replay_concat(apply(m, a[0].0, a[0].1), a.drop_first(), b);
        assert((a + b).drop_first() =~= a.drop_first() + b);
        assert((a + b)[0] == a[0]);
    }
}

/// Every key and value of `m` fits in a length field.
pub open spec fn map_fits(m: KvMap) -> bool {
    forall|k: Seq<u8>| #[trigger] m.contains_key(k) ==> k.len() <= 0x7fff && m[k].len() <= 0x7fff
}

/// Every key and value of `rs` fits in a length field.
pub open spec fn records_fit(rs: Seq<(Seq<u8>, Option<Seq<u8>>)>) -> bool {
    forall|i: int|
        0 <= i < rs.len() ==> #[trigger] rs[i].0.len() <= 0x7fff && match rs[i].1 {
            Some(v) => v.len() <= 0x7fff,
            None => true,
        }
}

proof fn lemma_len_field(n: nat, b: Seq<u8>, i: int)
    requires
        n <= 0x7fff,
        0 <= i,
        i + 2 <= b.len(),
        b.subrange(i, i + 2) == len_field(n),
    ensures
        be16(b, i) == n,
{
    assert(b[i] == b.subrange(i, i + 2)[0]);
    assert(b[i + 1] == b.subrange(i, i + 2)[1]);
    assert((n / 0x100) * 0x100 + n % 0x100 == n) by (nonlinear_arith);
    assert(n % 0x8000 == n);
}

/// Parsing one record whose lengths fit, followed by anything.
proof fn lemma_parse_one(key: Seq<u8>, value: Option<Seq<u8>>, tail: Seq<u8>)
    requires
        key.len() <= 0x7fff,
        value matches Some(v) ==> v.len() <= 0x7fff,
    ensures
        parse_records(record_bytes(key, value) + tail) == seq![(key, value)] + parse_records(tail),
{
    let b = record_bytes(key, value) + tail;
    let kl = key.len() as int;
    assert(b.subrange(0, 2) =~= len_field(key.len()));
    lemma_len_field(key.len(), b, 0);
    assert(b.subrange(2, kl + 2) =~= key);
    match value {
        Some(v) => {
            assert(b.subrange(kl + 2, kl + 4) =~= len_field(v.len()));
            lemma_len_field(v.len(), b, kl + 2);
            assert(b.subrange(kl + 4, kl + 4 + v.len()) =~= v);
            assert(b.subrange(kl + 4 + v.len(), b.len() as int) =~= tail);
        },
        None => {
            assert(b[kl + 2] == 0xff && b[kl + 3] == 0xff);
            assert(b.subrange(kl + 4, b.len() as int) =~= tail);
        },
    }
}

/// Parsing the bytes of records whose lengths fit gives the records back.
pub proof fn lemma_parse_records_bytes(rs: Seq<(Seq<u8>, Option<Seq<u8>>)>)
    requires
        records_fit(rs),
    ensures
        parse_records(records_bytes(rs)) == rs,
    decreases rs.len(),
{
    if rs.len() == 0 {
        assert(parse_records(records_bytes(rs)) =~= rs);
    } else {
        let rest = rs.drop_first();
        assert(records_fit(rest)) by {
            assert forall|i: int| 0 <= i < rest.len() implies #[trigger] rest[i].0.len() <= 0x7fff
                && match rest[i].1 {
                Some(v) => v.len() <= 0x7fff,
                None => true,
            } by {
                assert(rest[i] == rs[i + 1]);
            }
        }
        lemma_parse_records_bytes(rest);
        assert(rs[0].0.len() <= 0x7fff);
        lemma_parse_one(rs[0].0, rs[0].1, records_bytes(rest));
        assert(seq![(rs[0].0, rs[0].1)] + rest =~= rs);
    }
}

/// Appends the length field of `n` to `out`.
pub fn push_len(out: &mut Vec<u8>, n: usize)
    ensures
        final(out)@ == old(out)@ + len_field(n as nat),
{
    let hi = ((n % 0x8000) / 0x100) as u8;
    let lo = (n % 0x100) as u8;
    out.push(hi);
    out.push(lo);
    assert(final(out)@ =~= old(out)@ + len_field(n as nat));
}


/// Appends the bytes of `src` to `out`.
pub fn push_bytes(out: &mut Vec<u8>, src: &[u8])
    ensures
        final(out)@ == old(out)@ + src@,
{
    let mut i: usize = 0;
    while i < src.len()
        invariant
            i <= src@.len(),
            out@ == old(out)@ + src@.subrange(0, i as int),
        decreases src@.len() - i,
    {
        out.push(src[i]);
        i = i + 1;
        assert(out@ =~= old(out)@ + src@.subrange(0, i as int));
    }
    assert(src@.subrange(0, i as int) =~= src@);
}

/// Appends one record to `out`.
pub fn push_record(out: &mut Vec<u8>, key: &[u8], value: Option<&[u8]>)
    ensures
        final(out)@ == old(out)@ + record_bytes(
            key@,
            match value {
                Some(v) => Some(v@),
                None => None,
            },
        ),
{
    push_len(out, key.len());
    push_bytes(out, key);
    match value {
        Some(v) => {
            push_len(out, v.len());
            push_bytes(out, v);
        },
        None => {
            out.push(0xff);
            out.push(0xff);
        },
    }
    assert(final(out)@ =~= old(out)@ + record_bytes(
        key@,
        match value {
            Some(v) => Some(v@),
            None => None,
        },
    ));
}

/// One mutation: a key and the value written to it, `None` for a tombstone.
pub struct Record {
    pub key: Vec<u8>,
    pub value: Option<Vec<u8>>,
}

impl View for Record {
    type V = (Seq<u8>, Option<Seq<u8>>);

    open spec fn view(&self) -> (Seq<u8>, Option<Seq<u8>>) {
        (
            self.key@,
            match self.value {
                Some(v) => Some(v@),
                None => None,
            },
        )
    }
}

/// The mutations that a sequence of records stands for.
pub open spec fn records_view(rs: Seq<Record>) -> Seq<(Seq<u8>, Option<Seq<u8>>)> {
    rs.map_values(|r: Record| r@)
}

/// The bytes of one record.
pub fn encode_record(key: &Vec<u8>, value: &Option<Vec<u8>>) -> (r: Vec<u8>)
    ensures
        r@ == record_bytes(
            key@,
            match value {
                Some(v) => Some(v@),
                None => None,
            },
        ),
{
    let mut out: Vec<u8> = Vec::new();
    match value {
        Some(v) => push_record(&mut out, key.as_slice(), Some(v.as_slice())),
        None => push_record(&mut out, key.as_slice(), None),
    }
    assert(out@ =~= record_bytes(
        key@,
        match value {
            Some(v) => Some(v@),
            None => None,
        },
    ));
    out
}

/// The records at the front of `buf`; a trailing record that is cut short is
/// left out, as a write interrupted mid-append.
pub fn decode_records(buf: &[u8]) -> (r: Vec<Record>)
    ensures
        records_view(r@) == parse_records(buf@),
{
    let len = buf.len();
    let mut out: Vec<Record> = Vec::new();
    let mut i: usize = 0;
    assert(buf@.subrange(0, len as int) =~= buf@);
    assert(records_view(out@) =~= Seq::<(Seq<u8>, Option<Seq<u8>>)>::empty());
    while i < len
        invariant
            len == buf@.len(),
            i <= len,
            records_view(out@) + parse_records(buf@.subrange(i as int, len as int))
                == parse_records(buf@),
        ensures
            parse_records(buf@.subrange(i as int, len as int)) =~= Seq::<
                (Seq<u8>, Option<Seq<u8>>),
            >::empty(),
        decreases len - i,
    {
        let ghost rest = buf@.subrange(i as int, len as int);
        let rem = len - i;
        if rem < 2 {
            break;
        }
        let key_len = (buf[i] as usize * 0x100 + buf[i + 1] as usize) % 0x8000;
        assert(key_len == be16(rest, 0) % 0x8000);
        if rem - 2 < key_len + 2 {
            break;
        }
        let key = slice_to_vec(slice_subrange(buf, i + 2, i + 2 + key_len));
        assert(key@ =~= rest.subrange(2, key_len + 2));
        let value_len = buf[i + 2 + key_len] as usize * 0x100 + buf[i + 3 + key_len] as usize;
        assert(value_len == be16(rest, key_len + 2));
        let ghost before = records_view(out@);
        if value_len == NONE_VALUE_LEN as usize {
            out.push(Record { key, value: None });
            let next = i + 4 + key_len;
            assert(rest.subrange(key_len + 4, rest.len() as int) =~= buf@.subrange(
                next as int,
                len as int,
            ));
            assert(records_view(out@) =~= before + seq![(key@, None::<Seq<u8>>)]);
            i = next;
        } else {
            let vl = value_len % 0x8000;
            if rem - 4 - key_len < vl {
                break;
            }
            let end = i + 4 + key_len + vl;
            let value = slice_to_vec(slice_subrange(buf, i + 4 + key_len, end));
            assert(value@ =~= rest.subrange(key_len + 4, key_len + 4 + vl));
            out.push(Record { key, value: Some(value) });
            assert(rest.subrange(key_len + 4 + vl, rest.len() as int) =~= buf@.subrange(
                end as int,
                len as int,
            ));
            assert(records_view(out@) =~= before + seq![(key@, Some(value@))]);
            i = end;
        }
    }
    assert(records_view(out@) + Seq::<(Seq<u8>, Option<Seq<u8>>)>::empty() =~= records_view(out@));
    out
}

} // verus!
