//! Length-prefixed little-endian binary encoding of snapshots.
//!
//! This is the single-file format used to persist memory snapshots and
//! checkpoint records: integers are little-endian, counts and byte lengths
//! are `u64` prefixes, strings are UTF-8 bytes, options carry a one-byte
//! tag. Decoding is whole-input parse-or-fail: every decoder returns `None`
//! on malformed input, and decoding what an encoder produced returns
//! exactly the encoded value (proved below).

use vstd::prelude::*;
use vstd::bytes::{
    lemma_auto_spec_u32_to_from_le_bytes, lemma_auto_spec_u64_to_from_le_bytes,
    spec_u32_from_le_bytes, spec_u32_to_le_bytes, spec_u64_from_le_bytes, spec_u64_to_le_bytes,
    u32_from_le_bytes, u32_to_le_bytes, u64_from_le_bytes, u64_to_le_bytes,
};
use vstd::utf8::{decode_utf8, encode_utf8, valid_utf8};
use crate::vector::{entries_model, pairs_model, EntryModel, MemoryEntry};
use crate::memory::{MemoryState, MemoryStateModel};
use crate::engine::{EngineState, EngineStateModel};
use crate::state::{RuntimeState, RuntimeStateModel};
use crate::{messages_model, Message, MessageModel, Role};

verus! {

broadcast use vstd::utf8::encode_utf8_valid_utf8, vstd::utf8::encode_utf8_decode_utf8;

/// Relies on String::from_utf8: succeeds exactly on valid UTF-8 byte
/// sequences, returning the string whose UTF-8 encoding is those bytes.
#[verifier::external_body]
fn string_from_utf8(bytes: Vec<u8>) -> (r: Option<String>)
    ensures
        r is Some <==> valid_utf8(bytes@),
        match r {
            Some(s) => s@ == decode_utf8(bytes@) && bytes@ == encode_utf8(s@),
            None => true,
        },
{
    String::from_utf8(bytes).ok()
}

/// Append a slice's bytes.
fn push_bytes(out: &mut Vec<u8>, b: &[u8])
    ensures
        final(out)@ == old(out)@ + b@,
{
    let n = b.len();
    let mut i: usize = 0;
    while i < n
        invariant
            n == b@.len(),
            0 <= i <= n,
            out@ == old(out)@ + b@.take(i as int),
        decreases n - i,
    {
        out.push(b[i]);
        proof {
            assert(old(out)@ + b@.take(i + 1) =~= (old(out)@ + b@.take(i as int)).push(
                b@[i as int],
            ));
        }
        i = i + 1;
    }
    proof {
        assert(b@.take(n as int) =~= b@);
    }
}

// ---------------------------------------------------------------------
// u64
// ---------------------------------------------------------------------

/// Encoding of a `u64`: 8 bytes, little-endian.
pub open spec fn spec_enc_u64(x: u64) -> Seq<u8> {
    spec_u64_to_le_bytes(x)
}

/// Decode a `u64` at `pos`.
pub open spec fn spec_dec_u64(b: Seq<u8>, pos: int) -> Option<(u64, int)> {
    if 0 <= pos && pos + 8 <= b.len() {
        Some((spec_u64_from_le_bytes(b.subrange(pos, pos + 8)), pos + 8))
    } else {
        None
    }
}

/// A `u64` encoding in place decodes to the encoded value.
pub proof fn lemma_dec_u64(b: Seq<u8>, pos: int, x: u64)
    requires
        0 <= pos,
        pos + spec_enc_u64(x).len() <= b.len(),
        b.subrange(pos, pos + spec_enc_u64(x).len()) == spec_enc_u64(x),
    ensures
        spec_enc_u64(x).len() == 8,
        spec_dec_u64(b, pos) == Some((x, pos + 8)),
{
    lemma_auto_spec_u64_to_from_le_bytes();
}

fn enc_u64(out: &mut Vec<u8>, x: u64)
    ensures
        final(out)@ == old(out)@ + spec_enc_u64(x),
{
    let mut v = u64_to_le_bytes(x);
    out.append(&mut v);
}

fn dec_u64(b: &[u8], pos: usize) -> (r: Option<(u64, usize)>)
    ensures
        match r {
            Some((x, p)) => spec_dec_u64(b@, pos as int) == Some((x, p as int)),
            None => spec_dec_u64(b@, pos as int) is None,
        },
{
    if pos <= b.len() && b.len() - pos >= 8 {
        let x = u64_from_le_bytes(&b[pos..pos + 8]);
        Some((x, pos + 8))
    } else {
        None
    }
}

// ---------------------------------------------------------------------
// i32 (embedding components; stored as their 32-bit two's-complement form)
// ---------------------------------------------------------------------

/// Encoding of an `i32` component: 4 bytes, little-endian.
pub open spec fn spec_enc_i32(x: i32) -> Seq<u8> {
    spec_u32_to_le_bytes(x as u32)
}

/// Decode an `i32` at `pos`.
pub open spec fn spec_dec_i32(b: Seq<u8>, pos: int) -> Option<(i32, int)> {
    if 0 <= pos && pos + 4 <= b.len() {
        Some((spec_u32_from_le_bytes(b.subrange(pos, pos + 4)) as i32, pos + 4))
    } else {
        None
    }
}

/// An `i32` encoding in place decodes to the encoded value.
pub proof fn lemma_dec_i32(b: Seq<u8>, pos: int, x: i32)
    requires
        0 <= pos,
        pos + spec_enc_i32(x).len() <= b.len(),
        b.subrange(pos, pos + spec_enc_i32(x).len()) == spec_enc_i32(x),
    ensures
        spec_enc_i32(x).len() == 4,
        spec_dec_i32(b, pos) == Some((x, pos + 4)),
{
    lemma_auto_spec_u32_to_from_le_bytes();
    assert((x as u32) as i32 == x) by (bit_vector);
}

fn enc_i32(out: &mut Vec<u8>, x: i32)
    ensures
        final(out)@ == old(out)@ + spec_enc_i32(x),
{
    let mut v = u32_to_le_bytes(x as u32);
    out.append(&mut v);
}

fn dec_i32(b: &[u8], pos: usize) -> (r: Option<(i32, usize)>)
    ensures
        match r {
            Some((x, p)) => spec_dec_i32(b@, pos as int) == Some((x, p as int)),
            None => spec_dec_i32(b@, pos as int) is None,
        },
{
    if pos <= b.len() && b.len() - pos >= 4 {
        let x = u32_from_le_bytes(&b[pos..pos + 4]);
        Some((x as i32, pos + 4))
    } else {
        None
    }
}

// ---------------------------------------------------------------------
// u8 tags
// ---------------------------------------------------------------------

/// Decode one byte at `pos`.
pub open spec fn spec_dec_u8(b: Seq<u8>, pos: int) -> Option<(u8, int)> {
    if 0 <= pos && pos + 1 <= b.len() {
        Some((b[pos], pos + 1))
    } else {
        None
    }
}

fn dec_u8(b: &[u8], pos: usize) -> (r: Option<(u8, usize)>)
    ensures
        match r {
            Some((x, p)) => spec_dec_u8(b@, pos as int) == Some((x, p as int)),
            None => spec_dec_u8(b@, pos as int) is None,
        },
{
    if pos < b.len() {
        Some((b[pos], pos + 1))
    } else {
        None
    }
}

// ---------------------------------------------------------------------
// raw byte payloads (length-prefixed)
// ---------------------------------------------------------------------

/// A byte payload small enough for its `u64` length prefix.
pub open spec fn bytes_fit(d: Seq<u8>) -> bool {
    d.len() <= u64::MAX
}

/// Encoding of a raw byte payload: `u64` length, then the bytes.
pub open spec fn spec_enc_bytes(d: Seq<u8>) -> Seq<u8> {
    spec_enc_u64(d.len() as u64) + d
}

/// Decode a raw byte payload at `pos`.
pub open spec fn spec_dec_bytes(b: Seq<u8>, pos: int) -> Option<(Seq<u8>, int)> {
    match spec_dec_u64(b, pos) {
        None => None,
        Some((n, p)) => if p + n <= b.len() && n <= usize::MAX {
            Some((b.subrange(p, p + n), p + n))
        } else {
            None
        },
    }
}

/// A byte-payload encoding in place decodes to the encoded payload.
pub proof fn lemma_dec_bytes(b: Seq<u8>, pos: int, d: Seq<u8>)
    requires
        0 <= pos,
        bytes_fit(d),
        d.len() <= usize::MAX,
        pos + spec_enc_bytes(d).len() <= b.len(),
        b.subrange(pos, pos + spec_enc_bytes(d).len()) == spec_enc_bytes(d),
    ensures
        spec_enc_bytes(d).len() == 8 + d.len(),
        spec_dec_bytes(b, pos) == Some((d, pos + spec_enc_bytes(d).len())),
{
    lemma_auto_spec_u64_to_from_le_bytes();
    let e = spec_enc_bytes(d);
    assert(e.len() == 8 + d.len());
    assert(b.subrange(pos, pos + 8) =~= e.subrange(0, 8)) by {
        assert(forall|i: int|
            0 <= i < 8 ==> b.subrange(pos, pos + 8)[i] == #[trigger] b.subrange(
                pos,
                pos + e.len() as int,
            )[i]);
    }
    assert(e.subrange(0, 8) =~= spec_enc_u64(d.len() as u64));
    lemma_dec_u64(b, pos, d.len() as u64);
    assert(b.subrange(pos + 8, pos + 8 + d.len() as int) =~= d) by {
        assert(forall|i: int|
            0 <= i < d.len() ==> b.subrange(pos + 8, pos + 8 + d.len() as int)[i]
                == #[trigger] b.subrange(pos, pos + e.len() as int)[i + 8]);
        assert(forall|i: int| 0 <= i < d.len() ==> e[i + 8] == #[trigger] d[i]);
    }
}

fn enc_bytes(out: &mut Vec<u8>, d: &[u8])
    ensures
        final(out)@ == old(out)@ + spec_enc_bytes(d@),
        bytes_fit(d@),
        d@.len() <= usize::MAX,
{
    enc_u64(out, d.len() as u64);
    push_bytes(out, d);
    proof {
        assert(old(out)@ + spec_enc_u64(d@.len() as u64) + d@ =~= old(out)@ + (spec_enc_u64(
            d@.len() as u64,
        ) + d@));
    }
}

fn dec_bytes(b: &[u8], pos: usize) -> (r: Option<(Vec<u8>, usize)>)
    ensures
        match r {
            Some((d, p)) => spec_dec_bytes(b@, pos as int) == Some((d@, p as int)),
            None => spec_dec_bytes(b@, pos as int) is None,
        },
{
    match dec_u64(b, pos) {
        None => None,
        Some((n, p)) => {
            if n <= (b.len() - p) as u64 {
                let nu = n as usize;
                let mut d: Vec<u8> = Vec::new();
                let mut i: usize = 0;
                while i < nu
                    invariant
                        0 <= i <= nu,
                        p + nu <= b@.len(),
                        p + nu <= usize::MAX,
                        d@ == b@.subrange(p as int, p + i as int),
                    decreases nu - i,
                {
                    d.push(b[p + i]);
                    proof {
                        assert(b@.subrange(p as int, p + i + 1) =~= b@.subrange(
                            p as int,
                            p + i as int,
                        ).push(b@[p + i]));
                    }
                    i = i + 1;
                }
                Some((d, p + nu))
            } else {
                None
            }
        },
    }
}

// ---------------------------------------------------------------------
// strings (UTF-8, length-prefixed by byte count)
// ---------------------------------------------------------------------

/// A string small enough for its `u64` byte-length prefix.
pub open spec fn str_fits(s: Seq<char>) -> bool {
    encode_utf8(s).len() <= u64::MAX
}

/// Encoding of a string: `u64` byte length, then its UTF-8 bytes.
pub open spec fn spec_enc_str(s: Seq<char>) -> Seq<u8> {
    spec_enc_bytes(encode_utf8(s))
}

/// Decode a string at `pos`: its byte payload must be valid UTF-8.
pub open spec fn spec_dec_str(b: Seq<u8>, pos: int) -> Option<(Seq<char>, int)> {
    match spec_dec_bytes(b, pos) {
        None => None,
        Some((d, p)) => if valid_utf8(d) {
            Some((decode_utf8(d), p))
        } else {
            None
        },
    }
}

/// A string encoding in place decodes to the encoded string.
pub proof fn lemma_dec_str(b: Seq<u8>, pos: int, s: Seq<char>)
    requires
        0 <= pos,
        str_fits(s),
        encode_utf8(s).len() <= usize::MAX,
        pos + spec_enc_str(s).len() <= b.len(),
        b.subrange(pos, pos + spec_enc_str(s).len()) == spec_enc_str(s),
    ensures
        spec_dec_str(b, pos) == Some((s, pos + spec_enc_str(s).len())),
{
    lemma_dec_bytes(b, pos, encode_utf8(s));
    assert(valid_utf8(encode_utf8(s)));
    assert(decode_utf8(encode_utf8(s)) == s);
}

fn enc_str(out: &mut Vec<u8>, s: &str)
    ensures
        final(out)@ == old(out)@ + spec_enc_str(s@),
        str_fits(s@),
        encode_utf8(s@).len() <= usize::MAX,
{
    let bs = s.as_bytes();
    enc_bytes(out, bs);
}

fn dec_str(b: &[u8], pos: usize) -> (r: Option<(String, usize)>)
    ensures
        match r {
            Some((s, p)) => spec_dec_str(b@, pos as int) == Some((s@, p as int)),
            None => spec_dec_str(b@, pos as int) is None,
        },
{
    match dec_bytes(b, pos) {
        None => None,
        Some((d, p)) => {
            match string_from_utf8(d) {
                None => None,
                Some(s) => Some((s, p)),
            }
        },
    }
}

// ---------------------------------------------------------------------
// length-prefixed lists
// ---------------------------------------------------------------------

/// Encoding of a list's items, back to back.
pub open spec fn spec_enc_items<T>(items: Seq<T>, enc: spec_fn(T) -> Seq<u8>) -> Seq<u8>
    decreases items.len(),
{
    if items.len() == 0 {
        Seq::empty()
    } else {
        enc(items[0]) + spec_enc_items(items.drop_first(), enc)
    }
}

/// Encoding of a list: `u64` count, then the items back to back.
pub open spec fn spec_enc_list<T>(items: Seq<T>, enc: spec_fn(T) -> Seq<u8>) -> Seq<u8> {
    spec_enc_u64(items.len() as u64) + spec_enc_items(items, enc)
}

/// Decode `n` items at `pos`.
pub open spec fn spec_dec_items<T>(
    b: Seq<u8>,
    pos: int,
    n: nat,
    dec: spec_fn(Seq<u8>, int) -> Option<(T, int)>,
) -> Option<(Seq<T>, int)>
    decreases n,
{
    if n == 0 {
        Some((Seq::empty(), pos))
    } else {
        match dec(b, pos) {
            None => None,
            Some((v, p2)) => match spec_dec_items(b, p2, (n - 1) as nat, dec) {
                None => None,
                Some((vs, p3)) => Some((seq![v] + vs, p3)),
            },
        }
    }
}

/// Decode a list at `pos`: a `u64` count, then that many items.
pub open spec fn spec_dec_list<T>(
    b: Seq<u8>,
    pos: int,
    dec: spec_fn(Seq<u8>, int) -> Option<(T, int)>,
) -> Option<(Seq<T>, int)> {
    match spec_dec_u64(b, pos) {
        None => None,
        Some((n, p)) => spec_dec_items(b, p, n as nat, dec),
    }
}

/// In buffer `b`, wherever an item's encoding sits, `dec` reads it back.
pub open spec fn items_decodable<T>(
    b: Seq<u8>,
    items: Seq<T>,
    enc: spec_fn(T) -> Seq<u8>,
    dec: spec_fn(Seq<u8>, int) -> Option<(T, int)>,
) -> bool {
    forall|i: int, p: int|
        #![trigger dec(b, p), enc(items[i])]
        0 <= i < items.len() && 0 <= p && p + enc(items[i]).len() <= b.len() && b.subrange(
            p,
            p + enc(items[i]).len(),
        ) == enc(items[i]) ==> dec(b, p) == Some((items[i], p + enc(items[i]).len()))
}

/// Split a buffer slice that holds a concatenation into its two halves.
pub proof fn lemma_subrange_split(b: Seq<u8>, pos: int, x: Seq<u8>, y: Seq<u8>)
    requires
        0 <= pos,
        pos + x.len() + y.len() <= b.len(),
        b.subrange(pos, pos + x.len() + y.len()) == x + y,
    ensures
        b.subrange(pos, pos + x.len()) == x,
        b.subrange(pos + x.len(), pos + x.len() + y.len()) == y,
{
    let whole = b.subrange(pos, pos + x.len() + y.len());
    assert forall|i: int| 0 <= i < x.len() implies b.subrange(pos, pos + x.len())[i] == x[i] by {
        assert(b.subrange(pos, pos + x.len())[i] == b[pos + i]);
        assert(whole[i] == b[pos + i]);
        assert(whole[i] == (x + y)[i]);
    }
    assert(b.subrange(pos, pos + x.len()) =~= x);
    assert forall|i: int|
        0 <= i < y.len() implies b.subrange(pos + x.len(), pos + x.len() + y.len())[i] == y[i] by {
        assert(b.subrange(pos + x.len(), pos + x.len() + y.len())[i] == b[pos + x.len() + i]);
        assert(whole[x.len() + i] == b[pos + x.len() + i]);
        assert(whole[x.len() + i] == (x + y)[x.len() + i]);
    }
    assert(b.subrange(pos + x.len(), pos + x.len() + y.len()) =~= y);
}

/// Item encodings in place decode back to the items.
pub proof fn lemma_dec_items<T>(
    b: Seq<u8>,
    pos: int,
    items: Seq<T>,
    enc: spec_fn(T) -> Seq<u8>,
    dec: spec_fn(Seq<u8>, int) -> Option<(T, int)>,
)
    requires
        0 <= pos,
        pos + spec_enc_items(items, enc).len() <= b.len(),
        b.subrange(pos, pos + spec_enc_items(items, enc).len()) == spec_enc_items(items, enc),
        items_decodable(b, items, enc, dec),
    ensures
        spec_dec_items(b, pos, items.len(), dec) == Some(
            (items, pos + spec_enc_items(items, enc).len()),
        ),
    decreases items.len(),
{
    if items.len() != 0 {
        let e0 = enc(items[0]);
        let rest = items.drop_first();
        let erest = spec_enc_items(rest, enc);
        assert(spec_enc_items(items, enc) == e0 + erest);
        lemma_subrange_split(b, pos, e0, erest);
        assert(dec(b, pos) == Some((items[0], pos + e0.len())));
        assert(items_decodable(b, rest, enc, dec)) by {
            assert(forall|i: int| 0 <= i < rest.len() ==> #[trigger] rest[i] == items[i + 1]);
        }
        lemma_dec_items(b, pos + e0.len(), rest, enc, dec);
        assert(seq![items[0]] + rest =~= items);
    }
}

/// A list encoding in place decodes to the encoded list.
pub proof fn lemma_dec_list<T>(
    b: Seq<u8>,
    pos: int,
    items: Seq<T>,
    enc: spec_fn(T) -> Seq<u8>,
    dec: spec_fn(Seq<u8>, int) -> Option<(T, int)>,
)
    requires
        0 <= pos,
        items.len() <= u64::MAX,
        pos + spec_enc_list(items, enc).len() <= b.len(),
        b.subrange(pos, pos + spec_enc_list(items, enc).len()) == spec_enc_list(items, enc),
        items_decodable(b, items, enc, dec),
    ensures
        spec_dec_list(b, pos, dec) == Some((items, pos + spec_enc_list(items, enc).len())),
{
    lemma_auto_spec_u64_to_from_le_bytes();
    let pre = spec_enc_u64(items.len() as u64);
    let body = spec_enc_items(items, enc);
    lemma_subrange_split(b, pos, pre, body);
    lemma_dec_u64(b, pos, items.len() as u64);
    lemma_dec_items(b, pos + 8, items, enc, dec);
}

// ---------------------------------------------------------------------
// embedding component lists
// ---------------------------------------------------------------------

/// The component item encoder, as a function value.
pub open spec fn enc_i32_fn() -> spec_fn(i32) -> Seq<u8> {
    |x: i32| spec_enc_i32(x)
}

/// The component item decoder, as a function value.
pub open spec fn dec_i32_fn() -> spec_fn(Seq<u8>, int) -> Option<(i32, int)> {
    |b: Seq<u8>, pos: int| spec_dec_i32(b, pos)
}

fn enc_components(out: &mut Vec<u8>, v: &Vec<i32>)
    ensures
        final(out)@ == old(out)@ + spec_enc_list(v@, enc_i32_fn()),
        v@.len() <= u64::MAX,
{
    enc_u64(out, v.len() as u64);
    let n = v.len();
    let mut i: usize = 0;
    while i < n
        invariant
            n == v@.len(),
            0 <= i <= n,
            out@ == old(out)@ + spec_enc_u64(v@.len() as u64) + spec_enc_items(
                v@.take(i as int),
                enc_i32_fn(),
            ),
        decreases n - i,
    {
        let ghost prev = out@;
        enc_i32(out, v[i]);
        proof {
            lemma_enc_items_snoc(v@.take(i as int), v@[i as int], enc_i32_fn());
            assert(v@.take(i + 1) =~= v@.take(i as int).push(v@[i as int]));
            assert(out@ =~= old(out)@ + spec_enc_u64(v@.len() as u64) + spec_enc_items(
                v@.take(i + 1),
                enc_i32_fn(),
            ));
        }
        i = i + 1;
    }
    proof {
        assert(v@.take(n as int) =~= v@);
        assert(old(out)@ + spec_enc_u64(v@.len() as u64) + spec_enc_items(v@, enc_i32_fn())
            =~= old(out)@ + spec_enc_list(v@, enc_i32_fn()));
    }
}

/// Appending an item to a list appends its encoding.
pub proof fn lemma_enc_items_snoc<T>(items: Seq<T>, x: T, enc: spec_fn(T) -> Seq<u8>)
    ensures
        spec_enc_items(items.push(x), enc) == spec_enc_items(items, enc) + enc(x),
    decreases items.len(),
{
    let t = items.push(x);
    assert(t.len() != 0);
    if items.len() == 0 {
        assert(t[0] == x);
        assert(t.drop_first() =~= Seq::<T>::empty());
        assert(spec_enc_items(t, enc) == enc(t[0]) + spec_enc_items(t.drop_first(), enc));
        assert(spec_enc_items(t.drop_first(), enc) == Seq::<u8>::empty());
        assert(enc(x) + Seq::<u8>::empty() =~= enc(x));
        assert(spec_enc_items(items, enc) + enc(x) =~= enc(x));
    } else {
        assert(t[0] == items[0]);
        assert(t.drop_first() =~= items.drop_first().push(x));
        lemma_enc_items_snoc(items.drop_first(), x, enc);
        assert(spec_enc_items(t, enc) == enc(items[0]) + spec_enc_items(t.drop_first(), enc));
        assert(enc(items[0]) + (spec_enc_items(items.drop_first(), enc) + enc(x)) =~= (enc(
            items[0],
        ) + spec_enc_items(items.drop_first(), enc)) + enc(x));
    }
}

fn dec_components(b: &[u8], pos: usize) -> (r: Option<(Vec<i32>, usize)>)
    ensures
        match r {
            Some((v, p)) => spec_dec_list(b@, pos as int, dec_i32_fn()) == Some((v@, p as int)),
            None => spec_dec_list(b@, pos as int, dec_i32_fn()) is None,
        },
{
    match dec_u64(b, pos) {
        None => None,
        Some((n, p0)) => {
            let mut v: Vec<i32> = Vec::new();
            let mut p = p0;
            let mut i: u64 = 0;
            while i < n
                invariant
                    0 <= i <= n,
                    spec_dec_u64(b@, pos as int) == Some((n, p0 as int)),
                    spec_dec_items(b@, p0 as int, n as nat, dec_i32_fn()) == (match
                        spec_dec_items(b@, p as int, (n - i) as nat, dec_i32_fn()) {
                        None => None::<(Seq<i32>, int)>,
                        Some((vs, pe)) => Some((v@ + vs, pe)),
                    }),
                decreases n - i,
            {
                match dec_i32(b, p) {
                    None => {
                        proof {
                            assert(spec_dec_items(b@, p as int, (n - i) as nat, dec_i32_fn())
                                is None);
                        }
                        return None;
                    },
                    Some((x, p2)) => {
                        let ghost old_v = v@;
                        v.push(x);
                        proof {
                            let rem = spec_dec_items(
                                b@,
                                p2 as int,
                                (n - i - 1) as nat,
                                dec_i32_fn(),
                            );
                            assert(spec_dec_items(b@, p as int, (n - i) as nat, dec_i32_fn())
                                == (match rem {
                                None => None::<(Seq<i32>, int)>,
                                Some((vs2, pe)) => Some((seq![x] + vs2, pe)),
                            }));
                            match rem {
                                None => {},
                                Some((vs2, pe)) => {
                                    assert(old_v + (seq![x] + vs2) =~= v@ + vs2);
                                },
                            }
                        }
                        p = p2;
                    },
                }
                i = i + 1;
            }
            proof {
                assert(spec_dec_items(b@, p as int, 0, dec_i32_fn()) == Some(
                    (Seq::<i32>::empty(), p as int),
                ));
                assert(v@ + Seq::<i32>::empty() =~= v@);
            }
            Some((v, p))
        },
    }
}

// ---------------------------------------------------------------------
// metadata pairs
// ---------------------------------------------------------------------

/// A metadata pair within machine limits.
pub open spec fn pair_ok(p: (Seq<char>, Seq<char>)) -> bool {
    &&& encode_utf8(p.0).len() <= usize::MAX
    &&& encode_utf8(p.1).len() <= usize::MAX
}

/// Encoding of a metadata pair: the two strings.
pub open spec fn spec_enc_pair(p: (Seq<char>, Seq<char>)) -> Seq<u8> {
    spec_enc_str(p.0) + spec_enc_str(p.1)
}

/// Decode a metadata pair at `pos`.
pub open spec fn spec_dec_pair(b: Seq<u8>, pos: int) -> Option<((Seq<char>, Seq<char>), int)> {
    match spec_dec_str(b, pos) {
        None => None,
        Some((k, p1)) => match spec_dec_str(b, p1) {
            None => None,
            Some((v, p2)) => Some(((k, v), p2)),
        },
    }
}

/// A pair encoding in place decodes to the encoded pair.
pub proof fn lemma_dec_pair(b: Seq<u8>, pos: int, p: (Seq<char>, Seq<char>))
    requires
        0 <= pos,
        pair_ok(p),
        pos + spec_enc_pair(p).len() <= b.len(),
        b.subrange(pos, pos + spec_enc_pair(p).len()) == spec_enc_pair(p),
    ensures
        spec_dec_pair(b, pos) == Some((p, pos + spec_enc_pair(p).len())),
{
    let x = spec_enc_str(p.0);
    let y = spec_enc_str(p.1);
    lemma_subrange_split(b, pos, x, y);
    lemma_dec_str(b, pos, p.0);
    lemma_dec_str(b, pos + x.len(), p.1);
}

fn enc_pair(out: &mut Vec<u8>, p: &(String, String))
    ensures
        final(out)@ == old(out)@ + spec_enc_pair((p.0@, p.1@)),
        pair_ok((p.0@, p.1@)),
{
    enc_str(out, p.0.as_str());
    enc_str(out, p.1.as_str());
    proof {
        assert(out@ =~= old(out)@ + spec_enc_pair((p.0@, p.1@)));
    }
}

fn dec_pair(b: &[u8], pos: usize) -> (r: Option<((String, String), usize)>)
    ensures
        match r {
            Some((p, pe)) => spec_dec_pair(b@, pos as int) == Some(((p.0@, p.1@), pe as int)),
            None => spec_dec_pair(b@, pos as int) is None,
        },
{
    match dec_str(b, pos) {
        None => None,
        Some((k, p1)) => {
            match dec_str(b, p1) {
                None => None,
                Some((v, p2)) => Some(((k, v), p2)),
            }
        },
    }
}

/// The pair item encoder, as a function value.
pub open spec fn enc_pair_fn() -> spec_fn((Seq<char>, Seq<char>)) -> Seq<u8> {
    |p: (Seq<char>, Seq<char>)| spec_enc_pair(p)
}

/// The pair item decoder, as a function value.
pub open spec fn dec_pair_fn() -> spec_fn(Seq<u8>, int) -> Option<((Seq<char>, Seq<char>), int)> {
    |b: Seq<u8>, pos: int| spec_dec_pair(b, pos)
}

fn enc_pairs(out: &mut Vec<u8>, v: &Vec<(String, String)>)
    ensures
        final(out)@ == old(out)@ + spec_enc_list(pairs_model(v@), enc_pair_fn()),
        pairs_model(v@).len() <= u64::MAX,
        forall|i: int|
            0 <= i < pairs_model(v@).len() ==> pair_ok(#[trigger] pairs_model(v@)[i]),
{
    let ghost ms = pairs_model(v@);
    enc_u64(out, v.len() as u64);
    let n = v.len();
    let mut i: usize = 0;
    while i < n
        invariant
            n == v@.len(),
            ms == pairs_model(v@),
            0 <= i <= n,
            out@ == old(out)@ + spec_enc_u64(ms.len() as u64) + spec_enc_items(
                ms.take(i as int),
                enc_pair_fn(),
            ),
            forall|j: int| 0 <= j < i ==> pair_ok(#[trigger] ms[j]),
        decreases n - i,
    {
        enc_pair(out, &v[i]);
        proof {
            lemma_enc_items_snoc(ms.take(i as int), ms[i as int], enc_pair_fn());
            assert(ms.take(i + 1) =~= ms.take(i as int).push(ms[i as int]));
            assert(out@ =~= old(out)@ + spec_enc_u64(ms.len() as u64) + spec_enc_items(
                ms.take(i + 1),
                enc_pair_fn(),
            ));
        }
        i = i + 1;
    }
    proof {
        assert(ms.take(n as int) =~= ms);
        assert(old(out)@ + spec_enc_u64(ms.len() as u64) + spec_enc_items(ms, enc_pair_fn())
            =~= old(out)@ + spec_enc_list(ms, enc_pair_fn()));
    }
}

fn dec_pairs(b: &[u8], pos: usize) -> (r: Option<(Vec<(String, String)>, usize)>)
    ensures
        match r {
            Some((v, p)) => spec_dec_list(b@, pos as int, dec_pair_fn()) == Some(
                (pairs_model(v@), p as int),
            ),
            None => spec_dec_list(b@, pos as int, dec_pair_fn()) is None,
        },
{
    match dec_u64(b, pos) {
        None => None,
        Some((n, p0)) => {
            let mut v: Vec<(String, String)> = Vec::new();
            let mut p = p0;
            let mut i: u64 = 0;
            proof {
                assert(pairs_model(v@) =~= Seq::<(Seq<char>, Seq<char>)>::empty());
            }
            while i < n
                invariant
                    0 <= i <= n,
                    spec_dec_u64(b@, pos as int) == Some((n, p0 as int)),
                    spec_dec_list(b@, pos as int, dec_pair_fn()) == spec_dec_items(
                        b@,
                        p0 as int,
                        n as nat,
                        dec_pair_fn(),
                    ),
                    spec_dec_items(b@, p0 as int, n as nat, dec_pair_fn()) == (match
                        spec_dec_items(b@, p as int, (n - i) as nat, dec_pair_fn()) {
                        None => None::<(Seq<(Seq<char>, Seq<char>)>, int)>,
                        Some((vs, pe)) => Some((pairs_model(v@) + vs, pe)),
                    }),
                decreases n - i,
            {
                match dec_pair(b, p) {
                    None => {
                        proof {
                            assert(spec_dec_items(b@, p as int, (n - i) as nat, dec_pair_fn())
                                is None);
                        }
                        return None;
                    },
                    Some((x, p2)) => {
                        let ghost old_m = pairs_model(v@);
                        let ghost xm = (x.0@, x.1@);
                        v.push(x);
                        proof {
                            assert(pairs_model(v@) =~= old_m.push(xm));
                            let rem = spec_dec_items(
                                b@,
                                p2 as int,
                                (n - i - 1) as nat,
                                dec_pair_fn(),
                            );
                            assert(spec_dec_items(b@, p as int, (n - i) as nat, dec_pair_fn())
                                == (match rem {
                                None => None::<(Seq<(Seq<char>, Seq<char>)>, int)>,
                                Some((vs2, pe)) => Some((seq![xm] + vs2, pe)),
                            }));
                            match rem {
                                None => {},
                                Some((vs2, pe)) => {
                                    assert(old_m + (seq![xm] + vs2) =~= pairs_model(v@) + vs2);
                                },
                            }
                        }
                        p = p2;
                    },
                }
                i = i + 1;
            }
            proof {
                assert(spec_dec_items(b@, p as int, 0, dec_pair_fn()) == Some(
                    (Seq::<(Seq<char>, Seq<char>)>::empty(), p as int),
                ));
                assert(pairs_model(v@) + Seq::<(Seq<char>, Seq<char>)>::empty() =~= pairs_model(
                    v@,
                ));
            }
            Some((v, p))
        },
    }
}

// ---------------------------------------------------------------------
// memory entries
// ---------------------------------------------------------------------

/// An entry within machine limits.
pub open spec fn entry_ok(e: EntryModel) -> bool {
    &&& encode_utf8(e.key).len() <= usize::MAX
    &&& encode_utf8(e.content).len() <= usize::MAX
    &&& e.embedding.len() <= u64::MAX
    &&& e.metadata.len() <= u64::MAX
    &&& forall|i: int| 0 <= i < e.metadata.len() ==> pair_ok(#[trigger] e.metadata[i])
}

/// Encoding of an entry: key, content, embedding, metadata, timestamp.
pub open spec fn spec_enc_entry(e: EntryModel) -> Seq<u8> {
    spec_enc_str(e.key) + (spec_enc_str(e.content) + (spec_enc_list(e.embedding, enc_i32_fn()) + (
    spec_enc_list(e.metadata, enc_pair_fn()) + spec_enc_u64(e.created_at))))
}

/// Decode an entry at `pos`.
pub open spec fn spec_dec_entry(b: Seq<u8>, pos: int) -> Option<(EntryModel, int)> {
    match spec_dec_str(b, pos) {
        None => None,
        Some((key, p1)) => match spec_dec_str(b, p1) {
            None => None,
            Some((content, p2)) => match spec_dec_list(b, p2, dec_i32_fn()) {
                None => None,
                Some((embedding, p3)) => match spec_dec_list(b, p3, dec_pair_fn()) {
                    None => None,
                    Some((metadata, p4)) => match spec_dec_u64(b, p4) {
                        None => None,
                        Some((created_at, p5)) => Some(
                            (EntryModel { key, content, embedding, metadata, created_at }, p5),
                        ),
                    },
                },
            },
        },
    }
}

/// An entry encoding in place decodes to the encoded entry.
pub proof fn lemma_dec_entry(b: Seq<u8>, pos: int, e: EntryModel)
    requires
        0 <= pos,
        entry_ok(e),
        pos + spec_enc_entry(e).len() <= b.len(),
        b.subrange(pos, pos + spec_enc_entry(e).len()) == spec_enc_entry(e),
    ensures
        spec_dec_entry(b, pos) == Some((e, pos + spec_enc_entry(e).len())),
{
    let x1 = spec_enc_str(e.key);
    let x2 = spec_enc_str(e.content);
    let x3 = spec_enc_list(e.embedding, enc_i32_fn());
    let x4 = spec_enc_list(e.metadata, enc_pair_fn());
    let x5 = spec_enc_u64(e.created_at);
    lemma_subrange_split(b, pos, x1, x2 + (x3 + (x4 + x5)));
    lemma_dec_str(b, pos, e.key);
    let p1 = pos + x1.len();
    lemma_subrange_split(b, p1, x2, x3 + (x4 + x5));
    lemma_dec_str(b, p1, e.content);
    let p2 = p1 + x2.len();
    lemma_subrange_split(b, p2, x3, x4 + x5);
    assert(items_decodable(b, e.embedding, enc_i32_fn(), dec_i32_fn())) by {
        assert forall|i: int, p: int|
            0 <= i < e.embedding.len() && 0 <= p && p + enc_i32_fn()(e.embedding[i]).len()
                <= b.len() && b.subrange(p, p + enc_i32_fn()(e.embedding[i]).len()) == enc_i32_fn()(
                e.embedding[i],
            ) implies #[trigger] dec_i32_fn()(b, p) == Some(
            (e.embedding[i], p + enc_i32_fn()(#[trigger] e.embedding[i]).len()),
        ) by {
            lemma_dec_i32(b, p, e.embedding[i]);
        }
    }
    lemma_dec_list(b, p2, e.embedding, enc_i32_fn(), dec_i32_fn());
    let p3 = p2 + x3.len();
    lemma_subrange_split(b, p3, x4, x5);
    assert(items_decodable(b, e.metadata, enc_pair_fn(), dec_pair_fn())) by {
        assert forall|i: int, p: int|
            0 <= i < e.metadata.len() && 0 <= p && p + enc_pair_fn()(e.metadata[i]).len()
                <= b.len() && b.subrange(p, p + enc_pair_fn()(e.metadata[i]).len())
                == enc_pair_fn()(e.metadata[i]) implies #[trigger] dec_pair_fn()(b, p) == Some(
            (e.metadata[i], p + enc_pair_fn()(#[trigger] e.metadata[i]).len()),
        ) by {
            lemma_dec_pair(b, p, e.metadata[i]);
        }
    }
    lemma_dec_list(b, p3, e.metadata, enc_pair_fn(), dec_pair_fn());
    let p4 = p3 + x4.len();
    lemma_dec_u64(b, p4, e.created_at);
}

fn enc_entry(out: &mut Vec<u8>, e: &MemoryEntry)
    ensures
        final(out)@ == old(out)@ + spec_enc_entry(e@),
        entry_ok(e@),
{
    enc_str(out, e.key.as_str());
    enc_str(out, e.content.as_str());
    enc_components(out, &e.embedding);
    enc_pairs(out, &e.metadata);
    enc_u64(out, e.created_at);
    proof {
        assert(out@ =~= old(out)@ + spec_enc_entry(e@));
    }
}

fn dec_entry(b: &[u8], pos: usize) -> (r: Option<(MemoryEntry, usize)>)
    ensures
        match r {
            Some((e, p)) => spec_dec_entry(b@, pos as int) == Some((e@, p as int)),
            None => spec_dec_entry(b@, pos as int) is None,
        },
{
    match dec_str(b, pos) {
        None => None,
        Some((key, p1)) => {
            match dec_str(b, p1) {
                None => None,
                Some((content, p2)) => {
                    match dec_components(b, p2) {
                        None => None,
                        Some((embedding, p3)) => {
                            match dec_pairs(b, p3) {
                                None => None,
                                Some((metadata, p4)) => {
                                    match dec_u64(b, p4) {
                                        None => None,
                                        Some((created_at, p5)) => Some(
                                            (
                                                MemoryEntry {
                                                    key,
                                                    content,
                                                    embedding,
                                                    metadata,
                                                    created_at,
                                                },
                                                p5,
                                            ),
                                        ),
                                    }
                                },
                            }
                        },
                    }
                },
            }
        },
    }
}

/// The entry item encoder, as a function value.
pub open spec fn enc_entry_fn() -> spec_fn(EntryModel) -> Seq<u8> {
    |e: EntryModel| spec_enc_entry(e)
}

/// The entry item decoder, as a function value.
pub open spec fn dec_entry_fn() -> spec_fn(Seq<u8>, int) -> Option<(EntryModel, int)> {
    |b: Seq<u8>, pos: int| spec_dec_entry(b, pos)
}

fn enc_entries(out: &mut Vec<u8>, v: &Vec<MemoryEntry>)
    ensures
        final(out)@ == old(out)@ + spec_enc_list(entries_model(v@), enc_entry_fn()),
        entries_model(v@).len() <= u64::MAX,
        forall|i: int|
            0 <= i < entries_model(v@).len() ==> entry_ok(#[trigger] entries_model(v@)[i]),
{
    let ghost ms = entries_model(v@);
    enc_u64(out, v.len() as u64);
    let n = v.len();
    let mut i: usize = 0;
    while i < n
        invariant
            n == v@.len(),
            ms == entries_model(v@),
            0 <= i <= n,
            out@ == old(out)@ + spec_enc_u64(ms.len() as u64) + spec_enc_items(
                ms.take(i as int),
                enc_entry_fn(),
            ),
            forall|j: int| 0 <= j < i ==> entry_ok(#[trigger] ms[j]),
        decreases n - i,
    {
        enc_entry(out, &v[i]);
        proof {
            lemma_enc_items_snoc(ms.take(i as int), ms[i as int], enc_entry_fn());
            assert(ms.take(i + 1) =~= ms.take(i as int).push(ms[i as int]));
            assert(out@ =~= old(out)@ + spec_enc_u64(ms.len() as u64) + spec_enc_items(
                ms.take(i + 1),
                enc_entry_fn(),
            ));
        }
        i = i + 1;
    }
    proof {
        assert(ms.take(n as int) =~= ms);
        assert(old(out)@ + spec_enc_u64(ms.len() as u64) + spec_enc_items(ms, enc_entry_fn())
            =~= old(out)@ + spec_enc_list(ms, enc_entry_fn()));
    }
}

fn dec_entries(b: &[u8], pos: usize) -> (r: Option<(Vec<MemoryEntry>, usize)>)
    ensures
        match r {
            Some((v, p)) => spec_dec_list(b@, pos as int, dec_entry_fn()) == Some(
                (entries_model(v@), p as int),
            ),
            None => spec_dec_list(b@, pos as int, dec_entry_fn()) is None,
        },
{
    match dec_u64(b, pos) {
        None => None,
        Some((n, p0)) => {
            let mut v: Vec<MemoryEntry> = Vec::new();
            let mut p = p0;
            let mut i: u64 = 0;
            proof {
                assert(entries_model(v@) =~= Seq::<EntryModel>::empty());
            }
            while i < n
                invariant
                    0 <= i <= n,
                    spec_dec_u64(b@, pos as int) == Some((n, p0 as int)),
                    spec_dec_items(b@, p0 as int, n as nat, dec_entry_fn()) == (match
                        spec_dec_items(b@, p as int, (n - i) as nat, dec_entry_fn()) {
                        None => None::<(Seq<EntryModel>, int)>,
                        Some((vs, pe)) => Some((entries_model(v@) + vs, pe)),
                    }),
                decreases n - i,
            {
                match dec_entry(b, p) {
                    None => {
                        proof {
                            assert(spec_dec_items(b@, p as int, (n - i) as nat, dec_entry_fn())
                                is None);
                        }
                        return None;
                    },
                    Some((x, p2)) => {
                        let ghost old_m = entries_model(v@);
                        let ghost xm = x@;
                        v.push(x);
                        proof {
                            assert(entries_model(v@) =~= old_m.push(xm));
                            let rem = spec_dec_items(
                                b@,
                                p2 as int,
                                (n - i - 1) as nat,
                                dec_entry_fn(),
                            );
                            assert(spec_dec_items(b@, p as int, (n - i) as nat, dec_entry_fn())
                                == (match rem {
                                None => None::<(Seq<EntryModel>, int)>,
                                Some((vs2, pe)) => Some((seq![xm] + vs2, pe)),
                            }));
                            match rem {
                                None => {},
                                Some((vs2, pe)) => {
                                    assert(old_m + (seq![xm] + vs2) =~= entries_model(v@) + vs2);
                                },
                            }
                        }
                        p = p2;
                    },
                }
                i = i + 1;
            }
            proof {
                assert(spec_dec_items(b@, p as int, 0, dec_entry_fn()) == Some(
                    (Seq::<EntryModel>::empty(), p as int),
                ));
                assert(entries_model(v@) + Seq::<EntryModel>::empty() =~= entries_model(v@));
            }
            Some((v, p))
        },
    }
}

// ---------------------------------------------------------------------
// memory snapshots
// ---------------------------------------------------------------------

/// A memory snapshot within machine limits.
pub open spec fn memory_state_ok(m: MemoryStateModel) -> bool {
    &&& m.entries.len() <= u64::MAX
    &&& forall|i: int| 0 <= i < m.entries.len() ==> entry_ok(#[trigger] m.entries[i])
}

/// Encoding of a memory snapshot: dimension, capacity, entries.
pub open spec fn spec_enc_memory_state(m: MemoryStateModel) -> Seq<u8> {
    spec_enc_u64(m.embedding_dim as u64) + (spec_enc_u64(m.max_entries as u64) + spec_enc_list(
        m.entries,
        enc_entry_fn(),
    ))
}

/// Decode a memory snapshot at `pos`.
pub open spec fn spec_dec_memory_state(b: Seq<u8>, pos: int) -> Option<(MemoryStateModel, int)> {
    match spec_dec_u64(b, pos) {
        None => None,
        Some((dim, p1)) => if dim <= usize::MAX {
            match spec_dec_u64(b, p1) {
                None => None,
                Some((max, p2)) => if max <= usize::MAX {
                    match spec_dec_list(b, p2, dec_entry_fn()) {
                        None => None,
                        Some((entries, p3)) => Some(
                            (
                                MemoryStateModel {
                                    embedding_dim: dim as usize,
                                    max_entries: max as usize,
                                    entries,
                                },
                                p3,
                            ),
                        ),
                    }
                } else {
                    None
                },
            }
        } else {
            None
        },
    }
}

/// A memory-snapshot encoding in place decodes to the encoded snapshot.
/// This is the round trip: `load(persist(store)) == store` for entry
/// sequence (order included), dimension and capacity.
pub proof fn lemma_dec_memory_state(b: Seq<u8>, pos: int, m: MemoryStateModel)
    requires
        0 <= pos,
        memory_state_ok(m),
        pos + spec_enc_memory_state(m).len() <= b.len(),
        b.subrange(pos, pos + spec_enc_memory_state(m).len()) == spec_enc_memory_state(m),
    ensures
        spec_dec_memory_state(b, pos) == Some((m, pos + spec_enc_memory_state(m).len())),
{
    let x1 = spec_enc_u64(m.embedding_dim as u64);
    let x2 = spec_enc_u64(m.max_entries as u64);
    let x3 = spec_enc_list(m.entries, enc_entry_fn());
    lemma_subrange_split(b, pos, x1, x2 + x3);
    lemma_dec_u64(b, pos, m.embedding_dim as u64);
    let p1 = pos + x1.len();
    lemma_subrange_split(b, p1, x2, x3);
    lemma_dec_u64(b, p1, m.max_entries as u64);
    let p2 = p1 + x2.len();
    assert(items_decodable(b, m.entries, enc_entry_fn(), dec_entry_fn())) by {
        assert forall|i: int, p: int|
            0 <= i < m.entries.len() && 0 <= p && p + enc_entry_fn()(m.entries[i]).len()
                <= b.len() && b.subrange(p, p + enc_entry_fn()(m.entries[i]).len())
                == enc_entry_fn()(m.entries[i]) implies #[trigger] dec_entry_fn()(b, p) == Some(
            (m.entries[i], p + enc_entry_fn()(#[trigger] m.entries[i]).len()),
        ) by {
            lemma_dec_entry(b, p, m.entries[i]);
        }
    }
    lemma_dec_list(b, p2, m.entries, enc_entry_fn(), dec_entry_fn());
}

/// Encode a memory snapshot to bytes.
pub fn enc_memory_state(state: &MemoryState) -> (r: Vec<u8>)
    ensures
        r@ == spec_enc_memory_state(state@),
        memory_state_ok(state@),
{
    let mut out: Vec<u8> = Vec::new();
    enc_u64(&mut out, state.embedding_dim as u64);
    enc_u64(&mut out, state.max_entries as u64);
    enc_entries(&mut out, &state.entries);
    proof {
        assert(out@ =~= spec_enc_memory_state(state@));
    }
    out
}

/// Decode a memory snapshot from bytes laid down by [`enc_memory_state`].
pub fn dec_memory_state(b: &[u8], pos: usize) -> (r: Option<(MemoryState, usize)>)
    ensures
        match r {
            Some((m, p)) => spec_dec_memory_state(b@, pos as int) == Some((m@, p as int)),
            None => spec_dec_memory_state(b@, pos as int) is None,
        },
{
    match dec_u64(b, pos) {
        None => None,
        Some((dim, p1)) => {
            if dim <= usize::MAX as u64 {
                match dec_u64(b, p1) {
                    None => None,
                    Some((max, p2)) => {
                        if max <= usize::MAX as u64 {
                            match dec_entries(b, p2) {
                                None => None,
                                Some((entries, p3)) => Some(
                                    (
                                        MemoryState {
                                            embedding_dim: dim as usize,
                                            max_entries: max as usize,
                                            entries,
                                        },
                                        p3,
                                    ),
                                ),
                            }
                        } else {
                            None
                        }
                    },
                }
            } else {
                None
            }
        },
    }
}

// ---------------------------------------------------------------------
// roles and messages
// ---------------------------------------------------------------------

/// The one-byte tag of a role.
pub open spec fn role_tag(r: Role) -> u8 {
    match r {
        Role::System => 0u8,
        Role::User => 1u8,
        Role::Assistant => 2u8,
        Role::Tool => 3u8,
    }
}

/// Encoding of a role: its tag byte.
pub open spec fn spec_enc_role(r: Role) -> Seq<u8> {
    seq![role_tag(r)]
}

/// Decode a role at `pos`: tags above 3 are rejected.
pub open spec fn spec_dec_role(b: Seq<u8>, pos: int) -> Option<(Role, int)> {
    match spec_dec_u8(b, pos) {
        None => None,
        Some((t, p)) => if t == 0 {
            Some((Role::System, p))
        } else if t == 1 {
            Some((Role::User, p))
        } else if t == 2 {
            Some((Role::Assistant, p))
        } else if t == 3 {
            Some((Role::Tool, p))
        } else {
            None
        },
    }
}

/// A role encoding in place decodes to the encoded role.
pub proof fn lemma_dec_role(b: Seq<u8>, pos: int, r: Role)
    requires
        0 <= pos,
        pos + 1 <= b.len(),
        b.subrange(pos, pos + 1) == spec_enc_role(r),
    ensures
        spec_enc_role(r).len() == 1,
        spec_dec_role(b, pos) == Some((r, pos + 1)),
{
    assert(b[pos] == spec_enc_role(r)[0]);
}

fn enc_role(out: &mut Vec<u8>, r: &Role)
    ensures
        final(out)@ == old(out)@ + spec_enc_role(*r),
{
    let t: u8 = match r {
        Role::System => 0,
        Role::User => 1,
        Role::Assistant => 2,
        Role::Tool => 3,
    };
    out.push(t);
    proof {
        assert(out@ =~= old(out)@ + spec_enc_role(*r));
    }
}

fn dec_role(b: &[u8], pos: usize) -> (r: Option<(Role, usize)>)
    ensures
        match r {
            Some((x, p)) => spec_dec_role(b@, pos as int) == Some((x, p as int)),
            None => spec_dec_role(b@, pos as int) is None,
        },
{
    match dec_u8(b, pos) {
        None => None,
        Some((t, p)) => {
            if t == 0 {
                Some((Role::System, p))
            } else if t == 1 {
                Some((Role::User, p))
            } else if t == 2 {
                Some((Role::Assistant, p))
            } else if t == 3 {
                Some((Role::Tool, p))
            } else {
                None
            }
        },
    }
}

/// An optional string within machine limits.
pub open spec fn opt_str_ok(o: Option<Seq<char>>) -> bool {
    match o {
        None => true,
        Some(s) => encode_utf8(s).len() <= usize::MAX,
    }
}

/// Encoding of an optional string: tag byte 0, or 1 followed by the string.
pub open spec fn spec_enc_opt_str(o: Option<Seq<char>>) -> Seq<u8> {
    match o {
        None => seq![0u8],
        Some(s) => seq![1u8] + spec_enc_str(s),
    }
}

/// Decode an optional string at `pos`: tags above 1 are rejected.
pub open spec fn spec_dec_opt_str(b: Seq<u8>, pos: int) -> Option<(Option<Seq<char>>, int)> {
    match spec_dec_u8(b, pos) {
        None => None,
        Some((t, p)) => if t == 0 {
            Some((None, p))
        } else if t == 1 {
            match spec_dec_str(b, p) {
                None => None,
                Some((v, p2)) => Some((Some(v), p2)),
            }
        } else {
            None
        },
    }
}

/// An optional-string encoding in place decodes to the encoded value.
pub proof fn lemma_dec_opt_str(b: Seq<u8>, pos: int, o: Option<Seq<char>>)
    requires
        0 <= pos,
        opt_str_ok(o),
        pos + spec_enc_opt_str(o).len() <= b.len(),
        b.subrange(pos, pos + spec_enc_opt_str(o).len()) == spec_enc_opt_str(o),
    ensures
        spec_dec_opt_str(b, pos) == Some((o, pos + spec_enc_opt_str(o).len())),
{
    match o {
        None => {
            assert(b[pos] == spec_enc_opt_str(o)[0]);
        },
        Some(v) => {
            lemma_subrange_split(b, pos, seq![1u8], spec_enc_str(v));
            assert(b[pos] == 1u8) by {
                assert(b.subrange(pos, pos + 1)[0] == seq![1u8][0]);
            }
            lemma_dec_str(b, pos + 1, v);
        },
    }
}

fn enc_opt_str(out: &mut Vec<u8>, o: &Option<String>)
    ensures
        ({
            let om = match *o {
                Some(ref s) => Some(s@),
                None => None::<Seq<char>>,
            };
            final(out)@ == old(out)@ + spec_enc_opt_str(om) && opt_str_ok(om)
        }),
{
    match o {
        None => {
            out.push(0u8);
            proof {
                assert(out@ =~= old(out)@ + spec_enc_opt_str(None::<Seq<char>>));
            }
        },
        Some(s) => {
            out.push(1u8);
            enc_str(out, s.as_str());
            proof {
                assert(out@ =~= old(out)@ + spec_enc_opt_str(Some(s@)));
            }
        },
    }
}

fn dec_opt_str(b: &[u8], pos: usize) -> (r: Option<(Option<String>, usize)>)
    ensures
        match r {
            Some((o, p)) => spec_dec_opt_str(b@, pos as int) == Some(
                (
                    match o {
                        Some(s) => Some(s@),
                        None => None::<Seq<char>>,
                    },
                    p as int,
                ),
            ),
            None => spec_dec_opt_str(b@, pos as int) is None,
        },
{
    match dec_u8(b, pos) {
        None => None,
        Some((t, p)) => {
            if t == 0 {
                Some((None, p))
            } else if t == 1 {
                match dec_str(b, p) {
                    None => None,
                    Some((v, p2)) => Some((Some(v), p2)),
                }
            } else {
                None
            }
        },
    }
}

/// A message within machine limits.
pub open spec fn msg_ok(m: MessageModel) -> bool {
    &&& encode_utf8(m.content).len() <= usize::MAX
    &&& opt_str_ok(m.name)
}

/// Encoding of a message: role, content, optional name.
pub open spec fn spec_enc_msg(m: MessageModel) -> Seq<u8> {
    spec_enc_role(m.role) + (spec_enc_str(m.content) + spec_enc_opt_str(m.name))
}

/// Decode a message at `pos`.
pub open spec fn spec_dec_msg(b: Seq<u8>, pos: int) -> Option<(MessageModel, int)> {
    match spec_dec_role(b, pos) {
        None => None,
        Some((role, p1)) => match spec_dec_str(b, p1) {
            None => None,
            Some((content, p2)) => match spec_dec_opt_str(b, p2) {
                None => None,
                Some((name, p3)) => Some((MessageModel { role, content, name }, p3)),
            },
        },
    }
}

/// A message encoding in place decodes to the encoded message.
pub proof fn lemma_dec_msg(b: Seq<u8>, pos: int, m: MessageModel)
    requires
        0 <= pos,
        msg_ok(m),
        pos + spec_enc_msg(m).len() <= b.len(),
        b.subrange(pos, pos + spec_enc_msg(m).len()) == spec_enc_msg(m),
    ensures
        spec_dec_msg(b, pos) == Some((m, pos + spec_enc_msg(m).len())),
{
    let x1 = spec_enc_role(m.role);
    let x2 = spec_enc_str(m.content);
    let x3 = spec_enc_opt_str(m.name);
    lemma_subrange_split(b, pos, x1, x2 + x3);
    lemma_dec_role(b, pos, m.role);
    let p1 = pos + x1.len();
    lemma_subrange_split(b, p1, x2, x3);
    lemma_dec_str(b, p1, m.content);
    lemma_dec_opt_str(b, p1 + x2.len(), m.name);
}

fn enc_msg(out: &mut Vec<u8>, m: &Message)
    ensures
        final(out)@ == old(out)@ + spec_enc_msg(m@),
        msg_ok(m@),
{
    enc_role(out, &m.role);
    enc_str(out, m.content.as_str());
    enc_opt_str(out, &m.name);
    proof {
        assert(out@ =~= old(out)@ + spec_enc_msg(m@));
    }
}

fn dec_msg(b: &[u8], pos: usize) -> (r: Option<(Message, usize)>)
    ensures
        match r {
            Some((m, p)) => spec_dec_msg(b@, pos as int) == Some((m@, p as int)),
            None => spec_dec_msg(b@, pos as int) is None,
        },
{
    match dec_role(b, pos) {
        None => None,
        Some((role, p1)) => {
            match dec_str(b, p1) {
                None => None,
                Some((content, p2)) => {
                    match dec_opt_str(b, p2) {
                        None => None,
                        Some((name, p3)) => Some((Message { role, content, name }, p3)),
                    }
                },
            }
        },
    }
}

/// The message item encoder, as a function value.
pub open spec fn enc_msg_fn() -> spec_fn(MessageModel) -> Seq<u8> {
    |m: MessageModel| spec_enc_msg(m)
}

/// The message item decoder, as a function value.
pub open spec fn dec_msg_fn() -> spec_fn(Seq<u8>, int) -> Option<(MessageModel, int)> {
    |b: Seq<u8>, pos: int| spec_dec_msg(b, pos)
}

fn enc_messages(out: &mut Vec<u8>, v: &Vec<Message>)
    ensures
        final(out)@ == old(out)@ + spec_enc_list(messages_model(v@), enc_msg_fn()),
        messages_model(v@).len() <= u64::MAX,
        forall|i: int|
            0 <= i < messages_model(v@).len() ==> msg_ok(#[trigger] messages_model(v@)[i]),
{
    let ghost ms = messages_model(v@);
    enc_u64(out, v.len() as u64);
    let n = v.len();
    let mut i: usize = 0;
    while i < n
        invariant
            n == v@.len(),
            ms == messages_model(v@),
            0 <= i <= n,
            out@ == old(out)@ + spec_enc_u64(ms.len() as u64) + spec_enc_items(
                ms.take(i as int),
                enc_msg_fn(),
            ),
            forall|j: int| 0 <= j < i ==> msg_ok(#[trigger] ms[j]),
        decreases n - i,
    {
        enc_msg(out, &v[i]);
        proof {
            lemma_enc_items_snoc(ms.take(i as int), ms[i as int], enc_msg_fn());
            assert(ms.take(i + 1) =~= ms.take(i as int).push(ms[i as int]));
            assert(out@ =~= old(out)@ + spec_enc_u64(ms.len() as u64) + spec_enc_items(
                ms.take(i + 1),
                enc_msg_fn(),
            ));
        }
        i = i + 1;
    }
    proof {
        assert(ms.take(n as int) =~= ms);
        assert(old(out)@ + spec_enc_u64(ms.len() as u64) + spec_enc_items(ms, enc_msg_fn())
            =~= old(out)@ + spec_enc_list(ms, enc_msg_fn()));
    }
}

fn dec_messages(b: &[u8], pos: usize) -> (r: Option<(Vec<Message>, usize)>)
    ensures
        match r {
            Some((v, p)) => spec_dec_list(b@, pos as int, dec_msg_fn()) == Some(
                (messages_model(v@), p as int),
            ),
            None => spec_dec_list(b@, pos as int, dec_msg_fn()) is None,
        },
{
    match dec_u64(b, pos) {
        None => None,
        Some((n, p0)) => {
            let mut v: Vec<Message> = Vec::new();
            let mut p = p0;
            let mut i: u64 = 0;
            proof {
                assert(messages_model(v@) =~= Seq::<MessageModel>::empty());
            }
            while i < n
                invariant
                    0 <= i <= n,
                    spec_dec_u64(b@, pos as int) == Some((n, p0 as int)),
                    spec_dec_items(b@, p0 as int, n as nat, dec_msg_fn()) == (match
                        spec_dec_items(b@, p as int, (n - i) as nat, dec_msg_fn()) {
                        None => None::<(Seq<MessageModel>, int)>,
                        Some((vs, pe)) => Some((messages_model(v@) + vs, pe)),
                    }),
                decreases n - i,
            {
                match dec_msg(b, p) {
                    None => {
                        proof {
                            assert(spec_dec_items(b@, p as int, (n - i) as nat, dec_msg_fn())
                                is None);
                        }
                        return None;
                    },
                    Some((x, p2)) => {
                        let ghost old_m = messages_model(v@);
                        let ghost xm = x@;
                        v.push(x);
                        proof {
                            assert(messages_model(v@) =~= old_m.push(xm));
                            let rem = spec_dec_items(
                                b@,
                                p2 as int,
                                (n - i - 1) as nat,
                                dec_msg_fn(),
                            );
                            assert(spec_dec_items(b@, p as int, (n - i) as nat, dec_msg_fn())
                                == (match rem {
                                None => None::<(Seq<MessageModel>, int)>,
                                Some((vs2, pe)) => Some((seq![xm] + vs2, pe)),
                            }));
                            match rem {
                                None => {},
                                Some((vs2, pe)) => {
                                    assert(old_m + (seq![xm] + vs2) =~= messages_model(v@) + vs2);
                                },
                            }
                        }
                        p = p2;
                    },
                }
                i = i + 1;
            }
            proof {
                assert(spec_dec_items(b@, p as int, 0, dec_msg_fn()) == Some(
                    (Seq::<MessageModel>::empty(), p as int),
                ));
                assert(messages_model(v@) + Seq::<MessageModel>::empty() =~= messages_model(v@));
            }
            Some((v, p))
        },
    }
}

// ---------------------------------------------------------------------
// engine state
// ---------------------------------------------------------------------

/// An engine state within machine limits.
pub open spec fn engine_state_ok(e: EngineStateModel) -> bool {
    &&& e.data.len() <= usize::MAX
    &&& encode_utf8(e.engine_id).len() <= usize::MAX
}

/// Encoding of an engine state: blob, token count, engine id.
pub open spec fn spec_enc_engine_state(e: EngineStateModel) -> Seq<u8> {
    spec_enc_bytes(e.data) + (spec_enc_u64(e.n_tokens as u64) + spec_enc_str(e.engine_id))
}

/// Decode an engine state at `pos`.
pub open spec fn spec_dec_engine_state(b: Seq<u8>, pos: int) -> Option<(EngineStateModel, int)> {
    match spec_dec_bytes(b, pos) {
        None => None,
        Some((data, p1)) => match spec_dec_u64(b, p1) {
            None => None,
            Some((n, p2)) => if n <= usize::MAX {
                match spec_dec_str(b, p2) {
                    None => None,
                    Some((id, p3)) => Some(
                        (
                            EngineStateModel {
                                data,
                                n_tokens: n as usize,
                                engine_id: id,
                            },
                            p3,
                        ),
                    ),
                }
            } else {
                None
            },
        },
    }
}

/// An engine-state encoding in place decodes to the encoded state.
pub proof fn lemma_dec_engine_state(b: Seq<u8>, pos: int, e: EngineStateModel)
    requires
        0 <= pos,
        engine_state_ok(e),
        pos + spec_enc_engine_state(e).len() <= b.len(),
        b.subrange(pos, pos + spec_enc_engine_state(e).len()) == spec_enc_engine_state(e),
    ensures
        spec_dec_engine_state(b, pos) == Some((e, pos + spec_enc_engine_state(e).len())),
{
    let x1 = spec_enc_bytes(e.data);
    let x2 = spec_enc_u64(e.n_tokens as u64);
    let x3 = spec_enc_str(e.engine_id);
    lemma_subrange_split(b, pos, x1, x2 + x3);
    lemma_dec_bytes(b, pos, e.data);
    let p1 = pos + x1.len();
    lemma_subrange_split(b, p1, x2, x3);
    lemma_dec_u64(b, p1, e.n_tokens as u64);
    lemma_dec_str(b, p1 + x2.len(), e.engine_id);
}

fn enc_engine_state(out: &mut Vec<u8>, e: &EngineState)
    ensures
        final(out)@ == old(out)@ + spec_enc_engine_state(e@),
        engine_state_ok(e@),
{
    enc_bytes(out, e.data.as_slice());
    enc_u64(out, e.n_tokens as u64);
    enc_str(out, e.engine_id.as_str());
    proof {
        assert(out@ =~= old(out)@ + spec_enc_engine_state(e@));
    }
}

fn dec_engine_state(b: &[u8], pos: usize) -> (r: Option<(EngineState, usize)>)
    ensures
        match r {
            Some((e, p)) => spec_dec_engine_state(b@, pos as int) == Some((e@, p as int)),
            None => spec_dec_engine_state(b@, pos as int) is None,
        },
{
    match dec_bytes(b, pos) {
        None => None,
        Some((data, p1)) => {
            match dec_u64(b, p1) {
                None => None,
                Some((n, p2)) => {
                    if n <= usize::MAX as u64 {
                        match dec_str(b, p2) {
                            None => None,
                            Some((id, p3)) => Some(
                                (
                                    EngineState {
                                        data,
                                        n_tokens: n as usize,
                                        engine_id: id,
                                    },
                                    p3,
                                ),
                            ),
                        }
                    } else {
                        None
                    }
                },
            }
        },
    }
}

// ---------------------------------------------------------------------
// runtime state records
// ---------------------------------------------------------------------

/// A runtime state record within machine limits.
pub open spec fn runtime_state_ok(s: RuntimeStateModel) -> bool {
    &&& encode_utf8(s.id).len() <= usize::MAX
    &&& opt_str_ok(s.name)
    &&& s.messages.len() <= u64::MAX
    &&& forall|i: int| 0 <= i < s.messages.len() ==> msg_ok(#[trigger] s.messages[i])
    &&& memory_state_ok(s.memory)
    &&& engine_state_ok(s.engine_state)
    &&& s.metadata.len() <= u64::MAX
    &&& forall|i: int| 0 <= i < s.metadata.len() ==> pair_ok(#[trigger] s.metadata[i])
}

/// Encoding of a record: id, name, messages, memory, engine state,
/// timestamp, metadata.
pub open spec fn spec_enc_runtime_state(s: RuntimeStateModel) -> Seq<u8> {
    spec_enc_str(s.id) + (spec_enc_opt_str(s.name) + (spec_enc_list(s.messages, enc_msg_fn()) + (
    spec_enc_memory_state(s.memory) + (spec_enc_engine_state(s.engine_state) + (spec_enc_u64(
        s.created_at,
    ) + spec_enc_list(s.metadata, enc_pair_fn()))))))
}

/// Decode a record at `pos`.
pub open spec fn spec_dec_runtime_state(b: Seq<u8>, pos: int) -> Option<(RuntimeStateModel, int)> {
    match spec_dec_str(b, pos) {
        None => None,
        Some((id, p1)) => match spec_dec_opt_str(b, p1) {
            None => None,
            Some((name, p2)) => match spec_dec_list(b, p2, dec_msg_fn()) {
                None => None,
                Some((messages, p3)) => match spec_dec_memory_state(b, p3) {
                    None => None,
                    Some((memory, p4)) => match spec_dec_engine_state(b, p4) {
                        None => None,
                        Some((engine_state, p5)) => match spec_dec_u64(b, p5) {
                            None => None,
                            Some((created_at, p6)) => match spec_dec_list(b, p6, dec_pair_fn()) {
                                None => None,
                                Some((metadata, p7)) => Some(
                                    (
                                        RuntimeStateModel {
                                            id,
                                            name,
                                            messages,
                                            memory,
                                            engine_state,
                                            created_at,
                                            metadata,
                                        },
                                        p7,
                                    ),
                                ),
                            },
                        },
                    },
                },
            },
        },
    }
}

/// A record encoding in place decodes to the encoded record. This is the
/// checkpoint-file round trip.
pub proof fn lemma_dec_runtime_state(b: Seq<u8>, pos: int, s: RuntimeStateModel)
    requires
        0 <= pos,
        runtime_state_ok(s),
        pos + spec_enc_runtime_state(s).len() <= b.len(),
        b.subrange(pos, pos + spec_enc_runtime_state(s).len()) == spec_enc_runtime_state(s),
    ensures
        spec_dec_runtime_state(b, pos) == Some((s, pos + spec_enc_runtime_state(s).len())),
{
    let x1 = spec_enc_str(s.id);
    let x2 = spec_enc_opt_str(s.name);
    let x3 = spec_enc_list(s.messages, enc_msg_fn());
    let x4 = spec_enc_memory_state(s.memory);
    let x5 = spec_enc_engine_state(s.engine_state);
    let x6 = spec_enc_u64(s.created_at);
    let x7 = spec_enc_list(s.metadata, enc_pair_fn());
    lemma_subrange_split(b, pos, x1, x2 + (x3 + (x4 + (x5 + (x6 + x7)))));
    lemma_dec_str(b, pos, s.id);
    let p1 = pos + x1.len();
    lemma_subrange_split(b, p1, x2, x3 + (x4 + (x5 + (x6 + x7))));
    lemma_dec_opt_str(b, p1, s.name);
    let p2 = p1 + x2.len();
    lemma_subrange_split(b, p2, x3, x4 + (x5 + (x6 + x7)));
    assert(items_decodable(b, s.messages, enc_msg_fn(), dec_msg_fn())) by {
        assert forall|i: int, p: int|
            0 <= i < s.messages.len() && 0 <= p && p + enc_msg_fn()(s.messages[i]).len()
                <= b.len() && b.subrange(p, p + enc_msg_fn()(s.messages[i]).len()) == enc_msg_fn()(
                s.messages[i],
            ) implies #[trigger] dec_msg_fn()(b, p) == Some(
            (s.messages[i], p + enc_msg_fn()(#[trigger] s.messages[i]).len()),
        ) by {
            lemma_dec_msg(b, p, s.messages[i]);
        }
    }
    lemma_dec_list(b, p2, s.messages, enc_msg_fn(), dec_msg_fn());
    let p3 = p2 + x3.len();
    lemma_subrange_split(b, p3, x4, x5 + (x6 + x7));
    lemma_dec_memory_state(b, p3, s.memory);
    let p4 = p3 + x4.len();
    lemma_subrange_split(b, p4, x5, x6 + x7);
    lemma_dec_engine_state(b, p4, s.engine_state);
    let p5 = p4 + x5.len();
    lemma_subrange_split(b, p5, x6, x7);
    lemma_dec_u64(b, p5, s.created_at);
    let p6 = p5 + x6.len();
    assert(items_decodable(b, s.metadata, enc_pair_fn(), dec_pair_fn())) by {
        assert forall|i: int, p: int|
            0 <= i < s.metadata.len() && 0 <= p && p + enc_pair_fn()(s.metadata[i]).len()
                <= b.len() && b.subrange(p, p + enc_pair_fn()(s.metadata[i]).len())
                == enc_pair_fn()(s.metadata[i]) implies #[trigger] dec_pair_fn()(b, p) == Some(
            (s.metadata[i], p + enc_pair_fn()(#[trigger] s.metadata[i]).len()),
        ) by {
            lemma_dec_pair(b, p, s.metadata[i]);
        }
    }
    lemma_dec_list(b, p6, s.metadata, enc_pair_fn(), dec_pair_fn());
}

/// Encode a record to checkpoint-file bytes.
pub fn enc_runtime_state(state: &RuntimeState) -> (r: Vec<u8>)
    ensures
        r@ == spec_enc_runtime_state(state@),
        runtime_state_ok(state@),
{
    let mut out: Vec<u8> = Vec::new();
    enc_str(&mut out, state.id.as_str());
    enc_opt_str(&mut out, &state.name);
    enc_messages(&mut out, &state.messages);
    let ms = enc_memory_state(&state.memory);
    push_bytes(&mut out, ms.as_slice());
    enc_engine_state(&mut out, &state.engine_state);
    enc_u64(&mut out, state.created_at);
    enc_pairs(&mut out, &state.metadata);
    proof {
        assert(out@ =~= spec_enc_runtime_state(state@));
    }
    out
}

/// Decode a record from checkpoint-file bytes laid down by
/// [`enc_runtime_state`].
pub fn dec_runtime_state(b: &[u8], pos: usize) -> (r: Option<(RuntimeState, usize)>)
    ensures
        match r {
            Some((s, p)) => spec_dec_runtime_state(b@, pos as int) == Some((s@, p as int)),
            None => spec_dec_runtime_state(b@, pos as int) is None,
        },
{
    match dec_str(b, pos) {
        None => None,
        Some((id, p1)) => {
            match dec_opt_str(b, p1) {
                None => None,
                Some((name, p2)) => {
                    match dec_messages(b, p2) {
                        None => None,
                        Some((messages, p3)) => {
                            match dec_memory_state(b, p3) {
                                None => None,
                                Some((memory, p4)) => {
                                    match dec_engine_state(b, p4) {
                                        None => None,
                                        Some((engine_state, p5)) => {
                                            match dec_u64(b, p5) {
                                                None => None,
                                                Some((created_at, p6)) => {
                                                    match dec_pairs(b, p6) {
                                                        None => None,
                                                        Some((metadata, p7)) => Some(
                                                            (
                                                                RuntimeState {
                                                                    id,
                                                                    name,
                                                                    messages,
                                                                    memory,
                                                                    engine_state,
                                                                    created_at,
                                                                    metadata,
                                                                },
                                                                p7,
                                                            ),
                                                        ),
                                                    }
                                                },
                                            }
                                        },
                                    }
                                },
                            }
                        },
                    }
                },
            }
        },
    }
}

} // verus!
