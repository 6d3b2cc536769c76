//! Protocol-buffer primitives: base-128 varints and keyed fields.
use vstd::prelude::*;

verus! {

/// The base-128 little-endian encoding of `v`, low group first.
pub open spec fn varint(v: nat) -> Seq<u8>
    decreases v,
{
    if v < 128 {
        seq![v as u8]
    } else {
        seq![((v % 128) + 128) as u8] + varint(v / 128)
    }
}

/// Reads one varint from the front of `b`: its value and the bytes it took.
/// At most ten bytes are read, and a value that does not fit in 64 bits is refused.
pub open spec fn read_varint(b: Seq<u8>) -> Option<(u64, nat)> {
    read_groups(b, 10)
}

/// Reads a varint of at most `k` groups from the front of `b`.
pub open spec fn read_groups(b: Seq<u8>, k: nat) -> Option<(u64, nat)>
    decreases k,
{
    if k == 0 || b.len() == 0 {
        None
    } else if b[0] < 128 {
        Some((b[0] as u64, 1))
    } else {
        match read_groups(b.drop_first(), (k - 1) as nat) {
            Some((v, n)) => if v * 128 + (b[0] - 128) <= u64::MAX {
                Some(((v * 128 + (b[0] - 128)) as u64, n + 1))
            } else {
                None
            },
            None => None,
        }
    }
}

pub proof fn lemma_groups_round_trip(v: u64, rest: Seq<u8>, k: nat)
    requires
        varint(v as nat).len() <= k,
    ensures
        read_groups(varint(v as nat) + rest, k) == Some((v, varint(v as nat).len())),
    decreases v,
{
    let b = varint(v as nat) + rest;
    if v >= 128 {
        let w = (v / 128) as u64;
        assert(b.drop_first() =~= varint(w as nat) + rest);
        lemma_groups_round_trip(w, rest, (k - 1) as nat);
        assert(w * 128 + (v % 128) == v) by (nonlinear_arith)
            requires w == v / 128;
        assert(b[0] == (v % 128) + 128);
    }
}

/// Reading a varint back from its encoding, whatever follows it.
pub proof fn lemma_varint_round_trip(v: u64, rest: Seq<u8>)
    ensures
        read_varint(varint(v as nat) + rest) == Some((v, varint(v as nat).len())),
{
    lemma_varint_u64_len(v);
    lemma_groups_round_trip(v, rest, 10);
}

/// `128` to the power `k`: the first value that needs more than `k` groups.
pub open spec fn group_limit(k: nat) -> nat
    decreases k,
{
    if k == 0 {
        1
    } else {
        128 * group_limit((k - 1) as nat)
    }
}

pub proof fn lemma_varint_len(v: nat, k: nat)
    requires
        1 <= k,
        v < group_limit(k),
    ensures
        1 <= varint(v).len() <= k,
    decreases k,
{
    if v >= 128 {
        let g = group_limit((k - 1) as nat);
        assert(v / 128 < g) by (nonlinear_arith)
            requires v < 128 * g;
        assert(k >= 2) by {
            if k == 1 {
                assert(group_limit(0) == 1);
            }
        }
        lemma_varint_len(v / 128, (k - 1) as nat);
    }
}

/// A 64-bit value takes at most ten bytes.
pub proof fn lemma_varint_u64_len(v: u64)
    ensures
        1 <= varint(v as nat).len() <= 10,
{
    reveal_with_fuel(group_limit, 11);
    assert(group_limit(10) == 0x40_0000_0000_0000_0000);
    lemma_varint_len(v as nat, 10);
}

/// Relies on prost::encoding::encode_varint: it appends the varint encoding of `value`.
#[verifier::external_body]
pub(crate) fn put_varint(value: u64, buf: &mut Vec<u8>)
    ensures
        final(buf)@ == old(buf)@ + varint(value as nat),
{
    prost::encoding::encode_varint(value, buf)
}

/// Reads a varint from `b[pos..end]`.
pub fn read_varint_at(b: &[u8], pos: usize, end: usize) -> (r: Option<(u64, usize)>)
    requires
        pos <= end <= b@.len(),
    ensures
        match r {
            Some((v, n)) => read_varint(b@.subrange(pos as int, end as int)) == Some((v, n as nat))
                && 1 <= n <= end - pos,
            None => read_varint(b@.subrange(pos as int, end as int)) is None,
        },
{
    read_groups_at(b, pos, end, 10)
}

fn read_groups_at(b: &[u8], pos: usize, end: usize, k: usize) -> (r: Option<(u64, usize)>)
    requires
        pos <= end <= b@.len(),
    ensures
        match r {
            Some((v, n)) => read_groups(b@.subrange(pos as int, end as int), k as nat) == Some(
                (v, n as nat),
            ) && 1 <= n <= end - pos,
            None => read_groups(b@.subrange(pos as int, end as int), k as nat) is None,
        },
    decreases k,
{
    let ghost s = b@.subrange(pos as int, end as int);
    if k == 0 || pos >= end {
        return None;
    }
    let x: u8 = b[pos];
    if x < 128 {
        return Some((x as u64, 1));
    }
    assert(s.drop_first() =~= b@.subrange(pos + 1, end as int));
    match read_groups_at(b, pos + 1, end, k - 1) {
        Some((v, n)) => {
            let low: u64 = (x - 128) as u64;
            if v <= (u64::MAX - low) / 128 {
                assert(v * 128 + low <= u64::MAX) by (nonlinear_arith)
                    requires v <= (u64::MAX - low) / 128, low <= 127;
                Some((v * 128 + low, n + 1))
            } else {
                assert(v * 128 + low > u64::MAX) by (nonlinear_arith)
                    requires v > (u64::MAX - low) / 128, low <= 127;
                None
            }
        },
        None => None,
    }
}

/// The value of one field as it stands on the wire.
pub enum WireValue {
    Varint(u64),
    Bytes(Seq<u8>),
    /// A 32- or 64-bit value, which no message here uses; it is skipped.
    Fixed,
}

/// Largest field number that protocol buffers allow, plus one.
pub const FIELD_LIMIT: u64 = 0x2000_0000;

/// A field that `field_bytes` can write and `read_field` reads back.
pub open spec fn writable(number: u64, v: WireValue) -> bool {
    &&& 1 <= number < FIELD_LIMIT
    &&& !(v is Fixed)
    &&& v matches WireValue::Bytes(s) ==> s.len() <= u64::MAX
}

/// The encoding of one field: its key (number and wire type), then its value.
pub open spec fn field_bytes(number: u64, v: WireValue) -> Seq<u8> {
    match v {
        WireValue::Varint(x) => varint((number * 8) as nat) + varint(x as nat),
        WireValue::Bytes(s) => varint((number * 8 + 2) as nat) + varint(s.len()) + s,
        WireValue::Fixed => seq![],
    }
}

/// Reads one field from the front of `b`: its number, its value and the bytes it took.
/// The key must hold a field number from 1 and fit in 32 bits. Varint,
/// length-delimited, 64-bit and 32-bit wire types are read; groups are refused.
pub open spec fn read_field(b: Seq<u8>) -> Option<(u64, WireValue, nat)> {
    match read_varint(b) {
        None => None,
        Some((key, n)) => {
            let rest = b.skip(n as int);
            if key < 8 || key > u32::MAX {
                None
            } else if key % 8 == 1 {
                if n + 8 <= b.len() {
                    Some(((key / 8) as u64, WireValue::Fixed, n + 8))
                } else {
                    None
                }
            } else if key % 8 == 5 {
                if n + 4 <= b.len() {
                    Some(((key / 8) as u64, WireValue::Fixed, n + 4))
                } else {
                    None
                }
            } else {
            match read_varint(rest) {
                None => None,
                Some((x, m)) => if key % 8 == 0 {
                    Some(((key / 8) as u64, WireValue::Varint(x), n + m))
                } else if key % 8 == 2 && n + m + x <= b.len() {
                    Some(((key / 8) as u64, WireValue::Bytes(b.subrange((n + m) as int, (n + m + x) as int)), (n + m + x) as nat))
                } else {
                    None
                },
            }
            }
        },
    }
}

/// Reads the fields that make up all of `b`, in order.
pub open spec fn read_fields(b: Seq<u8>) -> Option<Seq<(u64, WireValue)>>
    decreases b.len(),
{
    if b.len() == 0 {
        Some(seq![])
    } else {
        match read_field(b) {
            Some((k, v, n)) => if 0 < n <= b.len() {
                match read_fields(b.skip(n as int)) {
                    Some(fs) => Some(seq![(k, v)] + fs),
                    None => None,
                }
            } else {
                None
            },
            None => None,
        }
    }
}

/// The encoding of a sequence of fields, one after another.
pub open spec fn fields_bytes(fs: Seq<(u64, WireValue)>) -> Seq<u8>
    decreases fs.len(),
{
    if fs.len() == 0 {
        seq![]
    } else {
        field_bytes(fs[0].0, fs[0].1) + fields_bytes(fs.drop_first())
    }
}

pub proof fn lemma_field_round_trip(number: u64, v: WireValue, rest: Seq<u8>)
    requires
        writable(number, v),
    ensures
        read_field(field_bytes(number, v) + rest) == Some((number, v, field_bytes(number, v).len())),
{
    let b = field_bytes(number, v) + rest;
    match v {
        WireValue::Varint(x) => {
            let key = (number * 8) as u64;
            assert(key % 8 == 0 && key / 8 == number && 8 <= key <= u32::MAX) by (nonlinear_arith)
                requires key == number * 8, 1 <= number < 0x2000_0000;
            assert(b =~= varint(key as nat) + (varint(x as nat) + rest));
            lemma_varint_round_trip(key, varint(x as nat) + rest);
            let n = varint(key as nat).len();
            assert(b.skip(n as int) =~= varint(x as nat) + rest);
            lemma_varint_round_trip(x, rest);
        },
        WireValue::Bytes(s) => {
            let key = (number * 8 + 2) as u64;
            assert(key % 8 == 2 && key / 8 == number && 8 <= key <= u32::MAX) by (nonlinear_arith)
                requires key == number * 8 + 2, 1 <= number < 0x2000_0000;
            let len = s.len() as u64;
            assert(b =~= varint(key as nat) + (varint(len as nat) + (s + rest)));
            lemma_varint_round_trip(key, varint(len as nat) + (s + rest));
            let n = varint(key as nat).len();
            let m = varint(len as nat).len();
            assert(b.skip(n as int) =~= varint(len as nat) + (s + rest));
            lemma_varint_round_trip(len, s + rest);
            assert(b.subrange((n + m) as int, (n + m + len) as int) =~= s);
        },
        WireValue::Fixed => {},
    }
}

/// Reading back a written sequence of fields gives the same sequence.
pub proof fn lemma_fields_round_trip(fs: Seq<(u64, WireValue)>)
    requires
        forall|i: int| 0 <= i < fs.len() ==> writable(#[trigger] fs[i].0, fs[i].1),
    ensures
        read_fields(fields_bytes(fs)) == Some(fs),
    decreases fs.len(),
{
    if fs.len() > 0 {
        let head = field_bytes(fs[0].0, fs[0].1);
        let tail = fields_bytes(fs.drop_first());
        assert(writable(fs[0].0, fs[0].1));
        lemma_field_round_trip(fs[0].0, fs[0].1, tail);
        assert(head.len() > 0) by {
            reveal_with_fuel(varint, 2);
        }
        assert((head + tail).skip(head.len() as int) =~= tail);
        assert forall|i: int| 0 <= i < fs.drop_first().len() implies writable(
            #[trigger] fs.drop_first()[i].0,
            fs.drop_first()[i].1,
        ) by {
            assert(fs.drop_first()[i] == fs[i + 1]);
        }
        lemma_fields_round_trip(fs.drop_first());
        assert(seq![(fs[0].0, fs[0].1)] + fs.drop_first() =~= fs);
    }
}

/// Where a field's value lies in the buffer that it was read from.
#[derive(Clone, Copy)]
pub enum RawValue {
    Varint(u64),
    Bytes(usize, usize),
    Fixed,
}

pub open spec fn raw_value(b: Seq<u8>, r: RawValue) -> WireValue {
    match r {
        RawValue::Varint(x) => WireValue::Varint(x),
        RawValue::Bytes(i, j) => WireValue::Bytes(b.subrange(i as int, j as int)),
        RawValue::Fixed => WireValue::Fixed,
    }
}

pub open spec fn raw_within(r: RawValue, lo: int, hi: int) -> bool {
    r matches RawValue::Bytes(i, j) ==> lo <= i <= j <= hi
}

/// Reads one field from `b[pos..end]`.
pub fn read_field_at(b: &[u8], pos: usize, end: usize) -> (r: Option<(u64, RawValue, usize)>)
    requires
        pos <= end <= b@.len(),
    ensures
        match r {
            Some((k, raw, n)) => read_field(b@.subrange(pos as int, end as int)) == Some(
                (k, raw_value(b@, raw), n as nat),
            ) && 1 <= n <= end - pos && raw_within(raw, pos as int, end as int),
            None => read_field(b@.subrange(pos as int, end as int)) is None,
        },
{
    let ghost s = b@.subrange(pos as int, end as int);
    let (key, n) = match read_varint_at(b, pos, end) {
        Some(p) => p,
        None => return None,
    };
    assert(s.skip(n as int) =~= b@.subrange(pos + n, end as int));
    if key < 8 || key > u32::MAX as u64 {
        return None;
    }
    if key % 8 == 1 {
        if 8 <= end - pos - n {
            return Some((key / 8, RawValue::Fixed, n + 8));
        } else {
            return None;
        }
    }
    if key % 8 == 5 {
        if 4 <= end - pos - n {
            return Some((key / 8, RawValue::Fixed, n + 4));
        } else {
            return None;
        }
    }
    let (x, m) = match read_varint_at(b, pos + n, end) {
        Some(p) => p,
        None => return None,
    };
    if key % 8 == 0 {
        Some((key / 8, RawValue::Varint(x), n + m))
    } else if key % 8 == 2 && x <= (end - pos - n - m) as u64 {
        let i = pos + n + m;
        let j = i + x as usize;
        assert(s.subrange(n + m, n + m + x) =~= b@.subrange(i as int, j as int));
        Some((key / 8, RawValue::Bytes(i, j), n + m + x as usize))
    } else {
        None
    }
}

pub open spec fn raw_fields(b: Seq<u8>, v: Seq<(u64, RawValue)>) -> Seq<(u64, WireValue)> {
    v.map_values(|f: (u64, RawValue)| (f.0, raw_value(b, f.1)))
}

pub open spec fn prepend(d: Seq<(u64, WireValue)>, o: Option<Seq<(u64, WireValue)>>) -> Option<
    Seq<(u64, WireValue)>,
> {
    match o {
        Some(x) => Some(d + x),
        None => None,
    }
}

/// Reads the fields that make up all of `b[start..end]`.
pub fn read_fields_at(b: &[u8], start: usize, end: usize) -> (r: Option<Vec<(u64, RawValue)>>)
    requires
        start <= end <= b@.len(),
    ensures
        match r {
            Some(v) => read_fields(b@.subrange(start as int, end as int)) == Some(raw_fields(b@, v@))
                && forall|i: int| 0 <= i < v@.len() ==> raw_within(#[trigger] v@[i].1, start as int, end as int),
            None => read_fields(b@.subrange(start as int, end as int)) is None,
        },
{
    let mut out: Vec<(u64, RawValue)> = Vec::new();
    let mut pos = start;
    assert(raw_fields(b@, out@) + read_fields(b@.subrange(start as int, end as int))->0 =~= read_fields(b@.subrange(start as int, end as int))->0);
    while pos < end
        invariant
            start <= pos <= end <= b@.len(),
            read_fields(b@.subrange(start as int, end as int)) == prepend(
                raw_fields(b@, out@),
                read_fields(b@.subrange(pos as int, end as int)),
            ),
            forall|i: int| 0 <= i < out@.len() ==> raw_within(#[trigger] out@[i].1, start as int, end as int),
        decreases end - pos,
    {
        let ghost sp = b@.subrange(pos as int, end as int);
        match read_field_at(b, pos, end) {
            Some((k, raw, n)) => {
                assert(sp.skip(n as int) =~= b@.subrange(pos + n, end as int));
                let ghost before = raw_fields(b@, out@);
                out.push((k, raw));
                assert(raw_fields(b@, out@) =~= before.push((k, raw_value(b@, raw))));
                proof {
                    match read_fields(b@.subrange(pos + n, end as int)) {
                        Some(x) => {
                            assert(before + (seq![(k, raw_value(b@, raw))] + x) =~= raw_fields(b@, out@) + x);
                        },
                        None => {},
                    }
                }
                pos = pos + n;
            },
            None => {
                return None;
            },
        }
    }
    assert(b@.subrange(pos as int, end as int) =~= Seq::<u8>::empty());
    assert(raw_fields(b@, out@) + Seq::<(u64, WireValue)>::empty() =~= raw_fields(b@, out@));
    Some(out)
}

} // verus!
