//! The wire schema: what each message holds, how it is written as
//! protocol-buffer fields, and how it is read back.
use vstd::prelude::*;
use vstd::utf8::valid_utf8;
use crate::wire::{
    FIELD_LIMIT, RawValue, WireValue, field_bytes, fields_bytes, lemma_fields_round_trip,
    lemma_varint_u64_len,
    put_varint, raw_fields, raw_value, raw_within, read_fields, read_fields_at, writable,
};

verus! {

/// A client's request to join a game.
#[derive(Clone, Copy, Debug, PartialEq, Eq, Structural)]
pub struct ConnectRequest {
    pub game_id: u64,
    pub spectate: bool,
}

/// The piece that a pawn becomes on the last rank.
#[derive(Clone, Copy, Debug, PartialEq, Eq, Structural)]
pub enum Promotion {
    Knight,
    Bishop,
    Rook,
    Queen,
}

/// A move on the wire: squares as linear indices, `row * 8 + column`.
#[derive(Clone, Copy, Debug, PartialEq, Eq, Structural)]
pub struct WireMove {
    pub from_square: u32,
    pub to_square: u32,
    pub promotion: Option<Promotion>,
}

pub type Fields = Seq<(u64, WireValue)>;

/// `fs` with `f` added at the end where `c` holds.
pub open spec fn push_if(fs: Fields, c: bool, f: (u64, WireValue)) -> Fields {
    if c {
        fs.push(f)
    } else {
        fs
    }
}

pub open spec fn all_writable(fs: Fields) -> bool {
    forall|i: int| 0 <= i < fs.len() ==> writable(#[trigger] fs[i].0, fs[i].1)
}

/// Applies `step` to each field in turn, starting from `init`; a refused field stops it.
pub open spec fn fold_fields<A>(
    init: A,
    step: spec_fn(A, (u64, WireValue)) -> Option<A>,
    fs: Fields,
) -> Option<A>
    decreases fs.len(),
{
    if fs.len() == 0 {
        Some(init)
    } else {
        match fold_fields(init, step, fs.drop_last()) {
            Some(a) => step(a, fs.last()),
            None => None,
        }
    }
}

pub proof fn lemma_push_if(fs: Fields, c: bool, f: (u64, WireValue))
    requires
        all_writable(fs),
        writable(f.0, f.1),
    ensures
        all_writable(push_if(fs, c, f)),
        fields_bytes(push_if(fs, c, f)) == if c {
            fields_bytes(fs) + field_bytes(f.0, f.1)
        } else {
            fields_bytes(fs)
        },
{
    if c {
        assert forall|i: int| 0 <= i < fs.push(f).len() implies writable(
            #[trigger] fs.push(f)[i].0,
            fs.push(f)[i].1,
        ) by {
            if i < fs.len() {
                assert(fs.push(f)[i] == fs[i]);
            }
        }
        lemma_fields_bytes_push(fs, f);
    }
}

pub proof fn lemma_fields_bytes_push(fs: Fields, f: (u64, WireValue))
    ensures
        fields_bytes(fs.push(f)) == fields_bytes(fs) + field_bytes(f.0, f.1),
    decreases fs.len(),
{
    if fs.len() == 0 {
        assert(fs.push(f).drop_first() =~= Seq::<(u64, WireValue)>::empty());
        reveal_with_fuel(fields_bytes, 2);
        assert(fields_bytes(fs.push(f)) =~= field_bytes(f.0, f.1));
    } else {
        assert(fs.push(f).drop_first() =~= fs.drop_first().push(f));
        lemma_fields_bytes_push(fs.drop_first(), f);
        assert(fields_bytes(fs.push(f)) =~= fields_bytes(fs) + field_bytes(f.0, f.1));
    }
}

pub proof fn lemma_fold_push_if<A>(
    init: A,
    step: spec_fn(A, (u64, WireValue)) -> Option<A>,
    fs: Fields,
    c: bool,
    f: (u64, WireValue),
)
    ensures
        fold_fields(init, step, push_if(fs, c, f)) == if c {
            match fold_fields(init, step, fs) {
                Some(a) => step(a, f),
                None => None,
            }
        } else {
            fold_fields(init, step, fs)
        },
{
    if c {
        assert(fs.push(f).drop_last() =~= fs);
    }
}

/// Once a fold over a prefix is refused, so is the fold over the whole.
pub proof fn lemma_fold_stuck<A>(
    init: A,
    step: spec_fn(A, (u64, WireValue)) -> Option<A>,
    fs: Fields,
    i: int,
)
    requires
        0 <= i <= fs.len(),
        fold_fields(init, step, fs.take(i)) is None,
    ensures
        fold_fields(init, step, fs) is None,
    decreases fs.len() - i,
{
    if i == fs.len() {
        assert(fs.take(i) =~= fs);
    } else {
        assert(fs.take(i + 1).drop_last() =~= fs.take(i));
        lemma_fold_stuck(init, step, fs, i + 1);
    }
}

pub proof fn lemma_field_len(number: u64, v: WireValue)
    requires
        writable(number, v),
    ensures
        field_bytes(number, v).len() <= 20 + match v {
            WireValue::Bytes(s) => s.len(),
            _ => 0,
        },
{
    match v {
        WireValue::Varint(x) => {
            lemma_varint_u64_len((number * 8) as u64);
            lemma_varint_u64_len(x);
        },
        WireValue::Bytes(s) => {
            lemma_varint_u64_len((number * 8 + 2) as u64);
            lemma_varint_u64_len(s.len() as u64);
        },
        WireValue::Fixed => {},
    }
}

/// Writes one varint field.
pub fn put_field_varint(buf: &mut Vec<u8>, number: u64, x: u64)
    requires
        number < FIELD_LIMIT,
    ensures
        final(buf)@ == old(buf)@ + field_bytes(number, WireValue::Varint(x)),
{
    put_varint(number * 8, buf);
    put_varint(x, buf);
    assert(final(buf)@ =~= old(buf)@ + field_bytes(number, WireValue::Varint(x)));
}

/// Writes one length-delimited field.
pub fn put_field_bytes(buf: &mut Vec<u8>, number: u64, s: &[u8])
    requires
        number < FIELD_LIMIT,
    ensures
        final(buf)@ == old(buf)@ + field_bytes(number, WireValue::Bytes(s@)),
{
    put_varint(number * 8 + 2, buf);
    put_varint(s.len() as u64, buf);
    buf.extend_from_slice(s);
    assert(final(buf)@ =~= old(buf)@ + field_bytes(number, WireValue::Bytes(s@)));
}

// ---------------------------------------------------------------- ConnectRequest

pub open spec fn empty_request() -> ConnectRequest {
    ConnectRequest { game_id: 0, spectate: false }
}

/// Fields at their default value are left out, as protocol buffers do.
pub open spec fn request_fields(r: ConnectRequest) -> Fields {
    push_if(
        push_if(seq![], r.game_id != 0, (1, WireValue::Varint(r.game_id))),
        r.spectate,
        (2, WireValue::Varint(1)),
    )
}

pub open spec fn request_step() -> spec_fn(ConnectRequest, (u64, WireValue)) -> Option<ConnectRequest> {
    |r: ConnectRequest, f: (u64, WireValue)|
        match f.1 {
            WireValue::Varint(x) => if f.0 == 1 {
                Some(ConnectRequest { game_id: x, spectate: r.spectate })
            } else if f.0 == 2 {
                Some(ConnectRequest { game_id: r.game_id, spectate: x != 0 })
            } else {
                Some(r)
            },
            _ => if f.0 == 1 || f.0 == 2 {
                None
            } else {
                Some(r)
            },
        }
}

pub open spec fn request_bytes(r: ConnectRequest) -> Seq<u8> {
    fields_bytes(request_fields(r))
}

pub open spec fn request_from(b: Seq<u8>) -> Option<ConnectRequest> {
    match read_fields(b) {
        Some(fs) => fold_fields(empty_request(), request_step(), fs),
        None => None,
    }
}

pub proof fn lemma_request_round_trip(r: ConnectRequest)
    ensures
        request_from(request_bytes(r)) == Some(r),
        all_writable(request_fields(r)),
        request_bytes(r).len() <= 40,
{
    let f1 = (1u64, WireValue::Varint(r.game_id));
    let f2 = (2u64, WireValue::Varint(1));
    let s0 = Seq::<(u64, WireValue)>::empty();
    lemma_push_if(s0, r.game_id != 0, f1);
    lemma_push_if(push_if(s0, r.game_id != 0, f1), r.spectate, f2);
    lemma_fields_round_trip(request_fields(r));
    lemma_fold_push_if(empty_request(), request_step(), s0, r.game_id != 0, f1);
    lemma_fold_push_if(empty_request(), request_step(), push_if(s0, r.game_id != 0, f1), r.spectate, f2);
    lemma_field_len(1, f1.1);
    lemma_field_len(2, f2.1);
}

pub fn encode_request(r: ConnectRequest) -> (out: Vec<u8>)
    ensures
        out@ == request_bytes(r),
{
    proof {
        lemma_request_round_trip(r);
        lemma_push_if(seq![], r.game_id != 0, (1, WireValue::Varint(r.game_id)));
        lemma_push_if(
            push_if(seq![], r.game_id != 0, (1, WireValue::Varint(r.game_id))),
            r.spectate,
            (2, WireValue::Varint(1)),
        );
    }
    let mut buf: Vec<u8> = Vec::new();
    if r.game_id != 0 {
        put_field_varint(&mut buf, 1, r.game_id);
    }
    if r.spectate {
        put_field_varint(&mut buf, 2, 1);
    }
    assert(buf@ =~= request_bytes(r));
    buf
}

pub fn decode_request(b: &[u8], start: usize, end: usize) -> (r: Option<ConnectRequest>)
    requires
        start <= end <= b@.len(),
    ensures
        r == request_from(b@.subrange(start as int, end as int)),
{
    let fields = match read_fields_at(b, start, end) {
        Some(f) => f,
        None => return None,
    };
    let ghost fs = raw_fields(b@, fields@);
    let mut acc = ConnectRequest { game_id: 0, spectate: false };
    let mut i: usize = 0;
    assert(fs.take(0) =~= Seq::<(u64, WireValue)>::empty());
    while i < fields.len()
        invariant
            i <= fields@.len(),
            fs == raw_fields(b@, fields@),
            read_fields(b@.subrange(start as int, end as int)) == Some(fs),
            fold_fields(empty_request(), request_step(), fs.take(i as int)) == Some(acc),
        decreases fields.len() - i,
    {
        let (k, raw) = fields[i];
        assert(fs.take(i + 1).drop_last() =~= fs.take(i as int));
        assert(fs.take(i + 1).last() == (k, raw_value(b@, raw)));
        match raw {
            RawValue::Varint(x) => {
                if k == 1 {
                    acc = ConnectRequest { game_id: x, spectate: acc.spectate };
                } else if k == 2 {
                    acc = ConnectRequest { game_id: acc.game_id, spectate: x != 0 };
                }
            },
            _ => {
                if k == 1 || k == 2 {
                    proof {
                        lemma_fold_stuck(empty_request(), request_step(), fs, i + 1);
                    }
                    return None;
                }
            },
        }
        i += 1;
    }
    assert(fs.take(fields@.len() as int) =~= fs);
    Some(acc)
}


// ---------------------------------------------------------------- WireMove

pub open spec fn promotion_code(p: Promotion) -> u64 {
    match p {
        Promotion::Knight => 0,
        Promotion::Bishop => 1,
        Promotion::Rook => 2,
        Promotion::Queen => 3,
    }
}

pub open spec fn promotion_of(x: u64) -> Option<Promotion> {
    if x == 0 {
        Some(Promotion::Knight)
    } else if x == 1 {
        Some(Promotion::Bishop)
    } else if x == 2 {
        Some(Promotion::Rook)
    } else if x == 3 {
        Some(Promotion::Queen)
    } else {
        None
    }
}

pub fn promotion_to_code(p: Promotion) -> (r: u64)
    ensures
        r == promotion_code(p),
{
    match p {
        Promotion::Knight => 0,
        Promotion::Bishop => 1,
        Promotion::Rook => 2,
        Promotion::Queen => 3,
    }
}

pub fn promotion_from_code(x: u64) -> (r: Option<Promotion>)
    ensures
        r == promotion_of(x),
{
    if x == 0 {
        Some(Promotion::Knight)
    } else if x == 1 {
        Some(Promotion::Bishop)
    } else if x == 2 {
        Some(Promotion::Rook)
    } else if x == 3 {
        Some(Promotion::Queen)
    } else {
        None
    }
}

pub open spec fn empty_move() -> WireMove {
    WireMove { from_square: 0, to_square: 0, promotion: None }
}

pub open spec fn move_fields(m: WireMove) -> Fields {
    push_if(
        push_if(
            push_if(seq![], m.from_square != 0, (1, WireValue::Varint(m.from_square as u64))),
            m.to_square != 0,
            (2, WireValue::Varint(m.to_square as u64)),
        ),
        m.promotion is Some,
        (3, WireValue::Varint(promotion_code(m.promotion->0))),
    )
}

pub open spec fn move_step() -> spec_fn(WireMove, (u64, WireValue)) -> Option<WireMove> {
    |m: WireMove, f: (u64, WireValue)|
        match f.1 {
            WireValue::Varint(x) => if f.0 == 1 {
                if x <= u32::MAX {
                    Some(WireMove { from_square: x as u32, to_square: m.to_square, promotion: m.promotion })
                } else {
                    None
                }
            } else if f.0 == 2 {
                if x <= u32::MAX {
                    Some(WireMove { from_square: m.from_square, to_square: x as u32, promotion: m.promotion })
                } else {
                    None
                }
            } else if f.0 == 3 {
                match promotion_of(x) {
                    Some(p) => Some(WireMove { from_square: m.from_square, to_square: m.to_square, promotion: Some(p) }),
                    None => None,
                }
            } else {
                Some(m)
            },
            _ => if 1 <= f.0 <= 3 {
                None
            } else {
                Some(m)
            },
        }
}

pub open spec fn move_bytes(m: WireMove) -> Seq<u8> {
    fields_bytes(move_fields(m))
}

pub open spec fn move_from(b: Seq<u8>) -> Option<WireMove> {
    match read_fields(b) {
        Some(fs) => fold_fields(empty_move(), move_step(), fs),
        None => None,
    }
}

pub proof fn lemma_move_round_trip(m: WireMove)
    ensures
        move_from(move_bytes(m)) == Some(m),
        move_bytes(m).len() <= 60,
{
    let f1 = (1u64, WireValue::Varint(m.from_square as u64));
    let f2 = (2u64, WireValue::Varint(m.to_square as u64));
    let f3 = (3u64, WireValue::Varint(promotion_code(m.promotion->0)));
    let s0 = Seq::<(u64, WireValue)>::empty();
    let s1 = push_if(s0, m.from_square != 0, f1);
    let s2 = push_if(s1, m.to_square != 0, f2);
    lemma_push_if(s0, m.from_square != 0, f1);
    lemma_push_if(s1, m.to_square != 0, f2);
    lemma_push_if(s2, m.promotion is Some, f3);
    lemma_fields_round_trip(move_fields(m));
    lemma_fold_push_if(empty_move(), move_step(), s0, m.from_square != 0, f1);
    lemma_fold_push_if(empty_move(), move_step(), s1, m.to_square != 0, f2);
    lemma_fold_push_if(empty_move(), move_step(), s2, m.promotion is Some, f3);
    lemma_field_len(1, f1.1);
    lemma_field_len(2, f2.1);
    lemma_field_len(3, f3.1);
}

pub fn encode_move(m: WireMove) -> (out: Vec<u8>)
    ensures
        out@ == move_bytes(m),
{
    let ghost f1 = (1u64, WireValue::Varint(m.from_square as u64));
    let ghost f2 = (2u64, WireValue::Varint(m.to_square as u64));
    let ghost f3 = (3u64, WireValue::Varint(promotion_code(m.promotion->0)));
    let ghost s0 = Seq::<(u64, WireValue)>::empty();
    let ghost s1 = push_if(s0, m.from_square != 0, f1);
    let ghost s2 = push_if(s1, m.to_square != 0, f2);
    proof {
        lemma_push_if(s0, m.from_square != 0, f1);
        lemma_push_if(s1, m.to_square != 0, f2);
        lemma_push_if(s2, m.promotion is Some, f3);
    }
    let mut buf: Vec<u8> = Vec::new();
    if m.from_square != 0 {
        put_field_varint(&mut buf, 1, m.from_square as u64);
    }
    assert(buf@ =~= fields_bytes(s1));
    if m.to_square != 0 {
        put_field_varint(&mut buf, 2, m.to_square as u64);
    }
    assert(buf@ =~= fields_bytes(s2));
    match m.promotion {
        Some(p) => put_field_varint(&mut buf, 3, promotion_to_code(p)),
        None => {},
    }
    assert(buf@ =~= move_bytes(m));
    buf
}

pub fn decode_move(b: &[u8], start: usize, end: usize) -> (r: Option<WireMove>)
    requires
        start <= end <= b@.len(),
    ensures
        r == move_from(b@.subrange(start as int, end as int)),
{
    let fields = match read_fields_at(b, start, end) {
        Some(f) => f,
        None => return None,
    };
    let ghost fs = raw_fields(b@, fields@);
    let mut acc = WireMove { from_square: 0, to_square: 0, promotion: None };
    let mut i: usize = 0;
    assert(fs.take(0) =~= Seq::<(u64, WireValue)>::empty());
    while i < fields.len()
        invariant
            i <= fields@.len(),
            fs == raw_fields(b@, fields@),
            read_fields(b@.subrange(start as int, end as int)) == Some(fs),
            fold_fields(empty_move(), move_step(), fs.take(i as int)) == Some(acc),
        decreases fields.len() - i,
    {
        let (k, raw) = fields[i];
        assert(fs.take(i + 1).drop_last() =~= fs.take(i as int));
        assert(fs.take(i + 1).last() == (k, raw_value(b@, raw)));
        let refused = match raw {
            RawValue::Varint(x) => {
                if k == 1 {
                    if x <= u32::MAX as u64 {
                        acc = WireMove { from_square: x as u32, to_square: acc.to_square, promotion: acc.promotion };
                        false
                    } else {
                        true
                    }
                } else if k == 2 {
                    if x <= u32::MAX as u64 {
                        acc = WireMove { from_square: acc.from_square, to_square: x as u32, promotion: acc.promotion };
                        false
                    } else {
                        true
                    }
                } else if k == 3 {
                    match promotion_from_code(x) {
                        Some(p) => {
                            acc = WireMove { from_square: acc.from_square, to_square: acc.to_square, promotion: Some(p) };
                            false
                        },
                        None => true,
                    }
                } else {
                    false
                }
            },
            _ => 1 <= k && k <= 3,
        };
        if refused {
            proof {
                lemma_fold_stuck(empty_move(), move_step(), fs, i + 1);
            }
            return None;
        }
        i += 1;
    }
    assert(fs.take(fields@.len() as int) =~= fs);
    Some(acc)
}


// ---------------------------------------------------------------- BoardState

/// A starting position, as the text of a FEN record in UTF-8.
#[derive(Clone, Debug, PartialEq, Eq)]
pub struct BoardState {
    pub fen_string: Vec<u8>,
}

impl View for BoardState {
    type V = Seq<u8>;

    open spec fn view(&self) -> Seq<u8> {
        self.fen_string@
    }
}

pub open spec fn board_fields(fen: Seq<u8>) -> Fields {
    push_if(seq![], fen.len() > 0, (1, WireValue::Bytes(fen)))
}

pub open spec fn board_step() -> spec_fn(Seq<u8>, (u64, WireValue)) -> Option<Seq<u8>> {
    |fen: Seq<u8>, f: (u64, WireValue)|
        match f.1 {
            WireValue::Bytes(s) => if f.0 == 1 {
                if valid_utf8(s) {
                    Some(s)
                } else {
                    None
                }
            } else {
                Some(fen)
            },
            _ => if f.0 == 1 {
                None
            } else {
                Some(fen)
            },
        }
}

pub open spec fn board_bytes(fen: Seq<u8>) -> Seq<u8> {
    fields_bytes(board_fields(fen))
}

pub open spec fn board_from(b: Seq<u8>) -> Option<Seq<u8>> {
    match read_fields(b) {
        Some(fs) => fold_fields(Seq::<u8>::empty(), board_step(), fs),
        None => None,
    }
}

/// A FEN payload is text, within the size that lengths on the wire can state.
pub open spec fn payload_fits(fen: Seq<u8>) -> bool {
    fen.len() + 100 <= u64::MAX && valid_utf8(fen)
}

/// Relies on std::str::from_utf8: it succeeds exactly on valid UTF-8.
#[verifier::external_body]
fn is_utf8(b: &[u8]) -> (r: bool)
    ensures
        r == valid_utf8(b@),
{
    std::str::from_utf8(b).is_ok()
}

pub proof fn lemma_board_round_trip(fen: Seq<u8>)
    requires
        payload_fits(fen),
    ensures
        board_from(board_bytes(fen)) == Some(fen),
        board_bytes(fen).len() <= fen.len() + 20,
{
    let f1 = (1u64, WireValue::Bytes(fen));
    let s0 = Seq::<(u64, WireValue)>::empty();
    lemma_push_if(s0, fen.len() > 0, f1);
    lemma_fields_round_trip(board_fields(fen));
    lemma_fold_push_if(Seq::<u8>::empty(), board_step(), s0, fen.len() > 0, f1);
    lemma_field_len(1, f1.1);
    if fen.len() == 0 {
        assert(fen =~= Seq::<u8>::empty());
    }
}

pub fn encode_board(fen: &[u8]) -> (out: Vec<u8>)
    ensures
        out@ == board_bytes(fen@),
{
    proof {
        if fen@.len() > 0 {
            lemma_fields_bytes_push(Seq::empty(), (1, WireValue::Bytes(fen@)));
        }
    }
    let mut buf: Vec<u8> = Vec::new();
    if fen.len() > 0 {
        put_field_bytes(&mut buf, 1, fen);
    }
    assert(buf@ =~= board_bytes(fen@));
    buf
}

pub fn decode_board(b: &[u8], start: usize, end: usize) -> (r: Option<Vec<u8>>)
    requires
        start <= end <= b@.len(),
    ensures
        match r {
            Some(v) => board_from(b@.subrange(start as int, end as int)) == Some(v@),
            None => board_from(b@.subrange(start as int, end as int)) is None,
        },
{
    let fields = match read_fields_at(b, start, end) {
        Some(f) => f,
        None => return None,
    };
    let ghost fs = raw_fields(b@, fields@);
    let mut acc: Vec<u8> = Vec::new();
    let mut i: usize = 0;
    assert(fs.take(0) =~= Seq::<(u64, WireValue)>::empty());
    while i < fields.len()
        invariant
            i <= fields@.len(),
            end <= b@.len(),
            fs == raw_fields(b@, fields@),
            read_fields(b@.subrange(start as int, end as int)) == Some(fs),
            forall|j: int| 0 <= j < fields@.len() ==> raw_within(#[trigger] fields@[j].1, start as int, end as int),
            fold_fields(Seq::<u8>::empty(), board_step(), fs.take(i as int)) == Some(acc@),
        decreases fields.len() - i,
    {
        let (k, raw) = fields[i];
        assert(fs.take(i + 1).drop_last() =~= fs.take(i as int));
        assert(fs.take(i + 1).last() == (k, raw_value(b@, raw)));
        assert(raw_within(fields@[i as int].1, start as int, end as int));
        let refused = match raw {
            RawValue::Bytes(lo, hi) => {
                if k == 1 {
                    let text = vstd::slice::slice_subrange(b, lo, hi);
                    if is_utf8(text) {
                        acc = vstd::slice::slice_to_vec(text);
                        false
                    } else {
                        true
                    }
                } else {
                    false
                }
            },
            _ => k == 1,
        };
        if refused {
            proof {
                lemma_fold_stuck(Seq::<u8>::empty(), board_step(), fs, i + 1);
            }
            return None;
        }
        i += 1;
    }
    assert(fs.take(fields@.len() as int) =~= fs);
    Some(acc)
}

// ---------------------------------------------------------------- ConnectAck

/// The host's answer to a `ConnectRequest`.
#[derive(Clone, Debug, PartialEq, Eq)]
pub struct ConnectAck {
    pub success: bool,
    pub starting_position: Option<BoardState>,
    pub game_id: Option<u64>,
    pub client_is_white: Option<bool>,
}

/// A `ConnectAck` with the starting position as its bytes.
pub struct AckView {
    pub success: bool,
    pub starting_position: Option<Seq<u8>>,
    pub game_id: Option<u64>,
    pub client_is_white: Option<bool>,
}

impl View for ConnectAck {
    type V = AckView;

    open spec fn view(&self) -> AckView {
        AckView {
            success: self.success,
            starting_position: match self.starting_position {
                Some(s) => Some(s@),
                None => None,
            },
            game_id: self.game_id,
            client_is_white: self.client_is_white,
        }
    }
}

pub open spec fn empty_ack() -> AckView {
    AckView { success: false, starting_position: None, game_id: None, client_is_white: None }
}

pub open spec fn bool_code(b: bool) -> u64 {
    if b {
        1
    } else {
        0
    }
}

pub open spec fn ack_fields(a: AckView) -> Fields {
    push_if(
        push_if(
            push_if(
                push_if(seq![], a.success, (1, WireValue::Varint(1))),
                a.starting_position is Some,
                (2, WireValue::Bytes(board_bytes(a.starting_position->0))),
            ),
            a.game_id is Some,
            (3, WireValue::Varint(a.game_id->0)),
        ),
        a.client_is_white is Some,
        (4, WireValue::Varint(bool_code(a.client_is_white->0))),
    )
}

pub open spec fn ack_step() -> spec_fn(AckView, (u64, WireValue)) -> Option<AckView> {
    |a: AckView, f: (u64, WireValue)|
        match f.1 {
            WireValue::Varint(x) => if f.0 == 1 {
                Some(AckView { success: x != 0, ..a })
            } else if f.0 == 3 {
                Some(AckView { game_id: Some(x), ..a })
            } else if f.0 == 4 {
                Some(AckView { client_is_white: Some(x != 0), ..a })
            } else if f.0 == 2 {
                None
            } else {
                Some(a)
            },
            WireValue::Bytes(s) => if f.0 == 2 {
                match board_from(s) {
                    Some(fen) => Some(AckView { starting_position: Some(fen), ..a }),
                    None => None,
                }
            } else if 1 <= f.0 <= 4 {
                None
            } else {
                Some(a)
            },
            WireValue::Fixed => if 1 <= f.0 <= 4 {
                None
            } else {
                Some(a)
            },
        }
}

pub open spec fn ack_bytes(a: AckView) -> Seq<u8> {
    fields_bytes(ack_fields(a))
}

pub open spec fn ack_from(b: Seq<u8>) -> Option<AckView> {
    match read_fields(b) {
        Some(fs) => fold_fields(empty_ack(), ack_step(), fs),
        None => None,
    }
}

pub open spec fn ack_fits(a: AckView) -> bool {
    a.starting_position matches Some(fen) ==> payload_fits(fen)
}

pub proof fn lemma_ack_round_trip(a: AckView)
    requires
        ack_fits(a),
    ensures
        ack_from(ack_bytes(a)) == Some(a),
        ack_bytes(a).len() <= 100 + match a.starting_position {
            Some(fen) => fen.len(),
            None => 0,
        },
{
    let fen = a.starting_position->0;
    if a.starting_position is Some {
        lemma_board_round_trip(fen);
    }
    let f1 = (1u64, WireValue::Varint(1));
    let f2 = (2u64, WireValue::Bytes(board_bytes(fen)));
    let f3 = (3u64, WireValue::Varint(a.game_id->0));
    let f4 = (4u64, WireValue::Varint(bool_code(a.client_is_white->0)));
    let s0 = Seq::<(u64, WireValue)>::empty();
    let s1 = push_if(s0, a.success, f1);
    let s2 = push_if(s1, a.starting_position is Some, f2);
    let s3 = push_if(s2, a.game_id is Some, f3);
    lemma_push_if(s0, a.success, f1);
    if a.starting_position is Some {
        lemma_push_if(s1, true, f2);
        lemma_field_len(2, f2.1);
    }
    lemma_push_if(s2, a.game_id is Some, f3);
    lemma_push_if(s3, a.client_is_white is Some, f4);
    lemma_fields_round_trip(ack_fields(a));
    lemma_fold_push_if(empty_ack(), ack_step(), s0, a.success, f1);
    lemma_fold_push_if(empty_ack(), ack_step(), s1, a.starting_position is Some, f2);
    lemma_fold_push_if(empty_ack(), ack_step(), s2, a.game_id is Some, f3);
    lemma_fold_push_if(empty_ack(), ack_step(), s3, a.client_is_white is Some, f4);
    lemma_field_len(1, f1.1);
    lemma_field_len(3, f3.1);
    lemma_field_len(4, f4.1);
}

pub fn encode_ack(a: &ConnectAck) -> (out: Vec<u8>)
    ensures
        out@ == ack_bytes(a@),
{
    let ghost av = a@;
    let ghost fen = av.starting_position->0;
    let ghost f1 = (1u64, WireValue::Varint(1));
    let ghost f2 = (2u64, WireValue::Bytes(board_bytes(fen)));
    let ghost f3 = (3u64, WireValue::Varint(av.game_id->0));
    let ghost f4 = (4u64, WireValue::Varint(bool_code(av.client_is_white->0)));
    let ghost s0 = Seq::<(u64, WireValue)>::empty();
    let ghost s1 = push_if(s0, av.success, f1);
    let ghost s2 = push_if(s1, av.starting_position is Some, f2);
    let ghost s3 = push_if(s2, av.game_id is Some, f3);
    let mut buf: Vec<u8> = Vec::new();
    if a.success {
        put_field_varint(&mut buf, 1, 1);
    }
    proof {
        if av.success {
            lemma_fields_bytes_push(s0, f1);
        }
    }
    assert(buf@ =~= fields_bytes(s1));
    match &a.starting_position {
        Some(bs) => {
            let inner = encode_board(bs.fen_string.as_slice());
            put_field_bytes(&mut buf, 2, inner.as_slice());
            proof {
                lemma_fields_bytes_push(s1, f2);
            }
        },
        None => {},
    }
    assert(buf@ =~= fields_bytes(s2));
    match a.game_id {
        Some(g) => {
            put_field_varint(&mut buf, 3, g);
            proof {
                lemma_fields_bytes_push(s2, f3);
            }
        },
        None => {},
    }
    assert(buf@ =~= fields_bytes(s3));
    match a.client_is_white {
        Some(w) => {
            put_field_varint(&mut buf, 4, if w { 1 } else { 0 });
            proof {
                lemma_fields_bytes_push(s3, f4);
            }
        },
        None => {},
    }
    assert(buf@ =~= ack_bytes(a@));
    buf
}

pub fn decode_ack(b: &[u8], start: usize, end: usize) -> (r: Option<ConnectAck>)
    requires
        start <= end <= b@.len(),
    ensures
        match r {
            Some(a) => ack_from(b@.subrange(start as int, end as int)) == Some(a@),
            None => ack_from(b@.subrange(start as int, end as int)) is None,
        },
{
    let fields = match read_fields_at(b, start, end) {
        Some(f) => f,
        None => return None,
    };
    let ghost fs = raw_fields(b@, fields@);
    let mut acc = ConnectAck { success: false, starting_position: None, game_id: None, client_is_white: None };
    let mut i: usize = 0;
    assert(fs.take(0) =~= Seq::<(u64, WireValue)>::empty());
    assert(acc@ == empty_ack());
    while i < fields.len()
        invariant
            i <= fields@.len(),
            end <= b@.len(),
            fs == raw_fields(b@, fields@),
            read_fields(b@.subrange(start as int, end as int)) == Some(fs),
            forall|j: int| 0 <= j < fields@.len() ==> raw_within(#[trigger] fields@[j].1, start as int, end as int),
            fold_fields(empty_ack(), ack_step(), fs.take(i as int)) == Some(acc@),
        decreases fields.len() - i,
    {
        let (k, raw) = fields[i];
        assert(fs.take(i + 1).drop_last() =~= fs.take(i as int));
        assert(fs.take(i + 1).last() == (k, raw_value(b@, raw)));
        assert(raw_within(fields@[i as int].1, start as int, end as int));
        let refused = match raw {
            RawValue::Varint(x) => {
                if k == 1 {
                    acc.success = x != 0;
                    false
                } else if k == 3 {
                    acc.game_id = Some(x);
                    false
                } else if k == 4 {
                    acc.client_is_white = Some(x != 0);
                    false
                } else {
                    k == 2
                }
            },
            RawValue::Bytes(lo, hi) => {
                if k == 2 {
                    assert(b@.subrange(lo as int, hi as int) == b@.subrange(lo as int, hi as int).subrange(0, (hi - lo) as int));
                    match decode_board(b, lo, hi) {
                        Some(fen) => {
                            acc.starting_position = Some(BoardState { fen_string: fen });
                            false
                        },
                        None => true,
                    }
                } else {
                    1 <= k && k <= 4
                }
            },
            RawValue::Fixed => 1 <= k && k <= 4,
        };
        if refused {
            proof {
                lemma_fold_stuck(empty_ack(), ack_step(), fs, i + 1);
            }
            return None;
        }
        i += 1;
    }
    assert(fs.take(fields@.len() as int) =~= fs);
    Some(acc)
}


// ---------------------------------------------------------------- envelopes

/// What a client sends.
#[derive(Clone, Copy, Debug, PartialEq, Eq, Structural)]
pub enum ClientMessage {
    ConnectRequest(ConnectRequest),
    Move(WireMove),
}

/// What a host sends.
#[derive(Clone, Debug, PartialEq, Eq)]
pub enum ServerMessage {
    ConnectAck(ConnectAck),
    Move(WireMove),
}

pub enum ServerView {
    ConnectAck(AckView),
    Move(WireMove),
}

impl View for ServerMessage {
    type V = ServerView;

    open spec fn view(&self) -> ServerView {
        match self {
            ServerMessage::ConnectAck(a) => ServerView::ConnectAck(a@),
            ServerMessage::Move(m) => ServerView::Move(*m),
        }
    }
}

/// A message of either direction.
#[derive(Clone, Debug, PartialEq, Eq)]
pub enum Envelope {
    Client(ClientMessage),
    Server(ServerMessage),
}

pub enum EnvelopeView {
    Client(ClientMessage),
    Server(ServerView),
}

impl View for Envelope {
    type V = EnvelopeView;

    open spec fn view(&self) -> EnvelopeView {
        match self {
            Envelope::Client(m) => EnvelopeView::Client(*m),
            Envelope::Server(m) => EnvelopeView::Server(m@),
        }
    }
}

/// Why a buffer could not be read as a message.
#[derive(Clone, Copy, Debug, PartialEq, Eq, Structural)]
pub enum DecodeError {
    /// Nothing was received.
    Empty,
    /// The bytes are not a message of the expected direction.
    Malformed,
    /// Well-formed fields that hold no message this side knows.
    Unsupported,
}

pub open spec fn client_fields(m: ClientMessage) -> Fields {
    match m {
        ClientMessage::ConnectRequest(r) => Seq::empty().push((1u64, WireValue::Bytes(request_bytes(r)))),
        ClientMessage::Move(mv) => Seq::empty().push((2u64, WireValue::Bytes(move_bytes(mv)))),
    }
}

pub open spec fn client_step() -> spec_fn(Option<ClientMessage>, (u64, WireValue)) -> Option<Option<ClientMessage>> {
    |st: Option<ClientMessage>, f: (u64, WireValue)|
        match f.1 {
            WireValue::Bytes(s) => if f.0 == 1 {
                match request_from(s) {
                    Some(r) => Some(Some(ClientMessage::ConnectRequest(r))),
                    None => None,
                }
            } else if f.0 == 2 {
                match move_from(s) {
                    Some(m) => Some(Some(ClientMessage::Move(m))),
                    None => None,
                }
            } else {
                Some(st)
            },
            _ => if f.0 == 1 || f.0 == 2 {
                None
            } else {
                Some(st)
            },
        }
}

pub open spec fn client_bytes(m: ClientMessage) -> Seq<u8> {
    fields_bytes(client_fields(m))
}

/// The client message that `b` holds; one without any message is refused.
pub open spec fn client_from(b: Seq<u8>) -> Option<ClientMessage> {
    match read_fields(b) {
        Some(fs) => match fold_fields(None, client_step(), fs) {
            Some(Some(m)) => Some(m),
            _ => None,
        },
        None => None,
    }
}

pub open spec fn server_fields(m: ServerView) -> Fields {
    match m {
        ServerView::ConnectAck(a) => Seq::empty().push((1u64, WireValue::Bytes(ack_bytes(a)))),
        ServerView::Move(mv) => Seq::empty().push((2u64, WireValue::Bytes(move_bytes(mv)))),
    }
}

pub open spec fn server_step() -> spec_fn(Option<ServerView>, (u64, WireValue)) -> Option<Option<ServerView>> {
    |st: Option<ServerView>, f: (u64, WireValue)|
        match f.1 {
            WireValue::Bytes(s) => if f.0 == 1 {
                match ack_from(s) {
                    Some(a) => Some(Some(ServerView::ConnectAck(a))),
                    None => None,
                }
            } else if f.0 == 2 {
                match move_from(s) {
                    Some(m) => Some(Some(ServerView::Move(m))),
                    None => None,
                }
            } else {
                Some(st)
            },
            _ => if f.0 == 1 || f.0 == 2 {
                None
            } else {
                Some(st)
            },
        }
}

pub open spec fn server_bytes(m: ServerView) -> Seq<u8> {
    fields_bytes(server_fields(m))
}

/// The server message that `b` holds; one without any message is refused.
pub open spec fn server_from(b: Seq<u8>) -> Option<ServerView> {
    match read_fields(b) {
        Some(fs) => match fold_fields(None, server_step(), fs) {
            Some(Some(m)) => Some(m),
            _ => None,
        },
        None => None,
    }
}

/// `b` holds well-formed fields but none of them is a client message.
pub open spec fn no_client_variant(b: Seq<u8>) -> bool {
    &&& b.len() > 0
    &&& read_fields(b) matches Some(fs)
    &&& fold_fields(None, client_step(), fs) == Some(None::<ClientMessage>)
}

/// `b` holds well-formed fields but none of them is a server message.
pub open spec fn no_server_variant(b: Seq<u8>) -> bool {
    &&& b.len() > 0
    &&& read_fields(b) matches Some(fs)
    &&& fold_fields(None, server_step(), fs) == Some(None::<ServerView>)
}

pub open spec fn server_view_opt(m: Option<ServerMessage>) -> Option<ServerView> {
    match m {
        Some(x) => Some(x@),
        None => None,
    }
}

pub fn encode_client(m: ClientMessage) -> (out: Vec<u8>)
    ensures
        out@ == client_bytes(m),
{
    let mut buf: Vec<u8> = Vec::new();
    match m {
        ClientMessage::ConnectRequest(r) => {
            let inner = encode_request(r);
            put_field_bytes(&mut buf, 1, inner.as_slice());
            proof {
                lemma_fields_bytes_push(Seq::empty(), (1u64, WireValue::Bytes(request_bytes(r))));
            }
        },
        ClientMessage::Move(mv) => {
            let inner = encode_move(mv);
            put_field_bytes(&mut buf, 2, inner.as_slice());
            proof {
                lemma_fields_bytes_push(Seq::empty(), (2u64, WireValue::Bytes(move_bytes(mv))));
            }
        },
    }
    assert(buf@ =~= client_bytes(m));
    buf
}

pub fn encode_server(m: &ServerMessage) -> (out: Vec<u8>)
    ensures
        out@ == server_bytes(m@),
{
    let mut buf: Vec<u8> = Vec::new();
    match m {
        ServerMessage::ConnectAck(a) => {
            let inner = encode_ack(a);
            put_field_bytes(&mut buf, 1, inner.as_slice());
            proof {
                lemma_fields_bytes_push(Seq::empty(), (1u64, WireValue::Bytes(ack_bytes(a@))));
            }
        },
        ServerMessage::Move(mv) => {
            let inner = encode_move(*mv);
            put_field_bytes(&mut buf, 2, inner.as_slice());
            proof {
                lemma_fields_bytes_push(Seq::empty(), (2u64, WireValue::Bytes(move_bytes(*mv))));
            }
        },
    }
    assert(buf@ =~= server_bytes(m@));
    buf
}

pub fn decode_client(b: &[u8]) -> (r: Result<ClientMessage, DecodeError>)
    ensures
        match r {
            Ok(m) => client_from(b@) == Some(m),
            Err(e) => client_from(b@) is None && (e == DecodeError::Empty <==> b@.len() == 0) && (e
                == DecodeError::Unsupported <==> no_client_variant(b@)),
        },
{
    assert(b@.subrange(0, b@.len() as int) =~= b@);
    if b.len() == 0 {
        return Err(DecodeError::Empty);
    }
    let fields = match read_fields_at(b, 0, b.len()) {
        Some(f) => f,
        None => return Err(DecodeError::Malformed),
    };
    let ghost fs = raw_fields(b@, fields@);
    let mut acc: Option<ClientMessage> = None;
    let mut i: usize = 0;
    assert(fs.take(0) =~= Seq::<(u64, WireValue)>::empty());
    while i < fields.len()
        invariant
            i <= fields@.len(),
            fs == raw_fields(b@, fields@),
            read_fields(b@) == Some(fs),
            forall|j: int| 0 <= j < fields@.len() ==> raw_within(#[trigger] fields@[j].1, 0, b@.len() as int),
            fold_fields(None, client_step(), fs.take(i as int)) == Some(acc),
        decreases fields.len() - i,
    {
        let (k, raw) = fields[i];
        assert(fs.take(i + 1).drop_last() =~= fs.take(i as int));
        assert(fs.take(i + 1).last() == (k, raw_value(b@, raw)));
        assert(raw_within(fields@[i as int].1, 0, b@.len() as int));
        let refused = match raw {
            RawValue::Bytes(lo, hi) => {
                assert(b@.subrange(lo as int, hi as int) == b@.subrange(lo as int, hi as int));
                if k == 1 {
                    match decode_request(b, lo, hi) {
                        Some(q) => {
                            acc = Some(ClientMessage::ConnectRequest(q));
                            false
                        },
                        None => true,
                    }
                } else if k == 2 {
                    match decode_move(b, lo, hi) {
                        Some(mv) => {
                            acc = Some(ClientMessage::Move(mv));
                            false
                        },
                        None => true,
                    }
                } else {
                    false
                }
            },
            _ => k == 1 || k == 2,
        };
        if refused {
            proof {
                lemma_fold_stuck(None, client_step(), fs, i + 1);
            }
            return Err(DecodeError::Malformed);
        }
        i += 1;
    }
    assert(fs.take(fields@.len() as int) =~= fs);
    match acc {
        Some(m) => Ok(m),
        None => Err(DecodeError::Unsupported),
    }
}

pub fn decode_server(b: &[u8]) -> (r: Result<ServerMessage, DecodeError>)
    ensures
        match r {
            Ok(m) => server_from(b@) == Some(m@),
            Err(e) => server_from(b@) is None && (e == DecodeError::Empty <==> b@.len() == 0) && (e
                == DecodeError::Unsupported <==> no_server_variant(b@)),
        },
{
    assert(b@.subrange(0, b@.len() as int) =~= b@);
    if b.len() == 0 {
        return Err(DecodeError::Empty);
    }
    let fields = match read_fields_at(b, 0, b.len()) {
        Some(f) => f,
        None => return Err(DecodeError::Malformed),
    };
    let ghost fs = raw_fields(b@, fields@);
    let mut acc: Option<ServerMessage> = None;
    let mut i: usize = 0;
    assert(fs.take(0) =~= Seq::<(u64, WireValue)>::empty());
    while i < fields.len()
        invariant
            i <= fields@.len(),
            fs == raw_fields(b@, fields@),
            read_fields(b@) == Some(fs),
            forall|j: int| 0 <= j < fields@.len() ==> raw_within(#[trigger] fields@[j].1, 0, b@.len() as int),
            fold_fields(None, server_step(), fs.take(i as int)) == Some(server_view_opt(acc)),
        decreases fields.len() - i,
    {
        let (k, raw) = fields[i];
        assert(fs.take(i + 1).drop_last() =~= fs.take(i as int));
        assert(fs.take(i + 1).last() == (k, raw_value(b@, raw)));
        assert(raw_within(fields@[i as int].1, 0, b@.len() as int));
        let refused = match raw {
            RawValue::Bytes(lo, hi) => {
                if k == 1 {
                    match decode_ack(b, lo, hi) {
                        Some(a) => {
                            acc = Some(ServerMessage::ConnectAck(a));
                            false
                        },
                        None => true,
                    }
                } else if k == 2 {
                    match decode_move(b, lo, hi) {
                        Some(mv) => {
                            acc = Some(ServerMessage::Move(mv));
                            false
                        },
                        None => true,
                    }
                } else {
                    false
                }
            },
            _ => k == 1 || k == 2,
        };
        if refused {
            proof {
                lemma_fold_stuck(None, server_step(), fs, i + 1);
            }
            return Err(DecodeError::Malformed);
        }
        i += 1;
    }
    assert(fs.take(fields@.len() as int) =~= fs);
    match acc {
        Some(m) => Ok(m),
        None => Err(DecodeError::Unsupported),
    }
}


pub open spec fn envelope_bytes(e: EnvelopeView) -> Seq<u8> {
    match e {
        EnvelopeView::Client(m) => client_bytes(m),
        EnvelopeView::Server(m) => server_bytes(m),
    }
}

/// What a peer reads from `b`: a host reads what clients send, a client
/// what hosts send.
pub open spec fn envelope_from(is_server: bool, b: Seq<u8>) -> Option<EnvelopeView> {
    if is_server {
        match client_from(b) {
            Some(m) => Some(EnvelopeView::Client(m)),
            None => None,
        }
    } else {
        match server_from(b) {
            Some(m) => Some(EnvelopeView::Server(m)),
            None => None,
        }
    }
}

/// `b` holds well-formed fields but no message that a peer of the given role reads.
pub open spec fn no_variant(is_server: bool, b: Seq<u8>) -> bool {
    if is_server {
        no_client_variant(b)
    } else {
        no_server_variant(b)
    }
}

/// An envelope whose starting position, if any, is within the size that
/// lengths on the wire can state.
pub open spec fn envelope_fits(e: EnvelopeView) -> bool {
    e matches EnvelopeView::Server(ServerView::ConnectAck(a)) ==> ack_fits(a)
}

/// Writes an envelope in the schema of its direction.
pub fn encode(e: &Envelope) -> (out: Vec<u8>)
    ensures
        out@ == envelope_bytes(e@),
{
    match e {
        Envelope::Client(m) => encode_client(*m),
        Envelope::Server(m) => encode_server(m),
    }
}

/// Reads an envelope in the schema that a peer of the given role receives.
pub fn decode(is_server: bool, b: &[u8]) -> (r: Result<Envelope, DecodeError>)
    ensures
        match r {
            Ok(e) => envelope_from(is_server, b@) == Some(e@) && (e is Client <==> is_server),
            Err(err) => envelope_from(is_server, b@) is None && (err == DecodeError::Empty <==> b@.len()
                == 0) && (err == DecodeError::Unsupported <==> no_variant(is_server, b@)),
        },
{
    if is_server {
        match decode_client(b) {
            Ok(m) => Ok(Envelope::Client(m)),
            Err(err) => Err(err),
        }
    } else {
        match decode_server(b) {
            Ok(m) => Ok(Envelope::Server(m)),
            Err(err) => Err(err),
        }
    }
}

/// Every envelope reads back as itself at the peer that it is meant for.
pub proof fn lemma_envelope_round_trip(e: EnvelopeView)
    requires
        envelope_fits(e),
    ensures
        envelope_from(e is Client, envelope_bytes(e)) == Some(e),
{
    let s0 = Seq::<(u64, WireValue)>::empty();
    match e {
        EnvelopeView::Client(m) => {
            let f = match m {
                ClientMessage::ConnectRequest(r) => {
                    lemma_request_round_trip(r);
                    (1u64, WireValue::Bytes(request_bytes(r)))
                },
                ClientMessage::Move(mv) => {
                    lemma_move_round_trip(mv);
                    (2u64, WireValue::Bytes(move_bytes(mv)))
                },
            };
            lemma_push_if(s0, true, f);
            lemma_fields_round_trip(client_fields(m));
            lemma_fold_push_if(None, client_step(), s0, true, f);
        },
        EnvelopeView::Server(m) => {
            let f = match m {
                ServerView::ConnectAck(a) => {
                    lemma_ack_round_trip(a);
                    (1u64, WireValue::Bytes(ack_bytes(a)))
                },
                ServerView::Move(mv) => {
                    lemma_move_round_trip(mv);
                    (2u64, WireValue::Bytes(move_bytes(mv)))
                },
            };
            lemma_push_if(s0, true, f);
            lemma_fields_round_trip(server_fields(m));
            lemma_fold_push_if(None, server_step(), s0, true, f);
        },
    }
}

/// Reading depends on the bytes and the role alone: equal buffers read alike.
pub proof fn lemma_decode_deterministic(is_server: bool, b1: Seq<u8>, b2: Seq<u8>)
    requires
        b1 == b2,
    ensures
        envelope_from(is_server, b1) == envelope_from(is_server, b2),
{
}

/// An empty buffer, or one that is not a sequence of well-formed fields, is
/// refused rather than read as a default message.
pub proof fn lemma_malformed_refused(is_server: bool, b: Seq<u8>)
    requires
        b.len() == 0 || read_fields(b) is None,
    ensures
        envelope_from(is_server, b) is None,
{
    if b.len() == 0 {
        assert(read_fields(b) == Some(Seq::<(u64, WireValue)>::empty()));
    }
}

pub proof fn lemma_push_if_len(fs: Fields, c: bool, f: (u64, WireValue))
    ensures
        fields_bytes(push_if(fs, c, f)).len() >= fields_bytes(fs).len(),
        c ==> fields_bytes(push_if(fs, c, f)).len() >= field_bytes(f.0, f.1).len(),
{
    if c {
        lemma_fields_bytes_push(fs, f);
    }
}

/// Largest read of the receive loop, in bytes.
pub const READ_CAPACITY: usize = 512;

/// Every envelope that fits in one read, with its starting position (if any)
/// in UTF-8, reads back as itself at the peer that it is meant for.
pub proof fn lemma_read_sized_round_trip(e: EnvelopeView)
    requires
        envelope_bytes(e).len() <= READ_CAPACITY,
        e matches EnvelopeView::Server(ServerView::ConnectAck(a)) ==> (a.starting_position matches Some(
            fen,
        ) ==> valid_utf8(fen)),
    ensures
        envelope_from(e is Client, envelope_bytes(e)) == Some(e),
{
    if let EnvelopeView::Server(ServerView::ConnectAck(a)) = e {
        if let Some(fen) = a.starting_position {
            let f2 = (2u64, WireValue::Bytes(board_bytes(fen)));
            let s0 = Seq::<(u64, WireValue)>::empty();
            let s1 = push_if(s0, a.success, (1u64, WireValue::Varint(1)));
            let s2 = push_if(s1, true, f2);
            let s3 = push_if(s2, a.game_id is Some, (3u64, WireValue::Varint(a.game_id->0)));
            lemma_push_if_len(s1, true, f2);
            lemma_push_if_len(s2, a.game_id is Some, (3u64, WireValue::Varint(a.game_id->0)));
            lemma_push_if_len(s3, a.client_is_white is Some, (4u64, WireValue::Varint(bool_code(a.client_is_white->0))));
            lemma_push_if_len(s0, fen.len() > 0, (1u64, WireValue::Bytes(fen)));
            lemma_push_if_len(s0, true, (1u64, WireValue::Bytes(ack_bytes(a))));
            assert(fen.len() <= READ_CAPACITY);
        }
    }
    lemma_envelope_round_trip(e);
}

} // verus!
