//! The wire format of modules, bundles and script transactions.
//!
//! Encoding is specified by total functions from values to byte sequences;
//! decoding mirrors a total specification from byte sequences to values, and
//! the two are related by round-trip lemmas: decoding an encoding yields the
//! value encoded.

use vstd::prelude::*;

use vstd::arithmetic::div_mod::{lemma_fundamental_div_mod, lemma_multiply_divide_lt};

use crate::abi::TypeTag;

verus! {

// ------------------------------------------------------------------
// Little-endian scalars
// ------------------------------------------------------------------

/// 256 to the power `n`.
pub open spec fn pow256(n: nat) -> nat
    decreases n,
{
    if n == 0 {
        1
    } else {
        256 * pow256((n - 1) as nat)
    }
}

/// The `n` little-endian bytes of `v`.
pub open spec fn enc_le(v: nat, n: nat) -> Seq<u8>
    decreases n,
{
    if n == 0 {
        Seq::empty()
    } else {
        seq![(v % 256) as u8] + enc_le(v / 256, (n - 1) as nat)
    }
}

/// The value a little-endian byte sequence denotes.
pub open spec fn le_val(b: Seq<u8>) -> nat
    decreases b.len(),
{
    if b.len() == 0 {
        0
    } else {
        b[0] as nat + 256 * le_val(b.drop_first())
    }
}

/// An 8-byte little-endian `u64`.
pub open spec fn enc_u64(v: u64) -> Seq<u8> {
    enc_le(v as nat, 8)
}

/// Decoding an 8-byte little-endian `u64` at `pos`.
pub open spec fn sd_u64(b: Seq<u8>, pos: int) -> Option<(u64, int)> {
    if 0 <= pos && pos + 8 <= b.len() {
        Some(((le_val(b.subrange(pos, pos + 8)) % pow256(8)) as u64, pos + 8))
    } else {
        None
    }
}

/// A little-endian byte sequence denotes a value below 256^length.
pub proof fn lemma_le_val_bound(b: Seq<u8>)
    ensures
        le_val(b) < pow256(b.len()),
    decreases b.len(),
{
    if b.len() > 0 {
        lemma_le_val_bound(b.drop_first());
    }
}

/// Round trip for little-endian scalars.
pub proof fn lemma_rt_le(v: nat, n: nat)
    requires
        v < pow256(n),
    ensures
        enc_le(v, n).len() == n,
        le_val(enc_le(v, n)) == v,
    decreases n,
{
    if n > 0 {
        lemma_fundamental_div_mod(v as int, 256);
        assert(v / 256 < pow256((n - 1) as nat)) by {
            lemma_multiply_divide_lt(v as int, pow256((n - 1) as nat) as int, 256);
        };
        lemma_rt_le(v / 256, (n - 1) as nat);
        assert(enc_le(v, n).drop_first() =~= enc_le(v / 256, (n - 1) as nat));
    }
}

/// Round trip for a `u64` embedded in a longer sequence.
pub proof fn lemma_rt_u64(b: Seq<u8>, pos: int, v: u64)
    requires
        0 <= pos,
        pos + 8 <= b.len(),
        b.subrange(pos, pos + 8) == enc_u64(v),
    ensures
        sd_u64(b, pos) == Some((v, pos + 8)),
{
    lemma_pow256_values();
    lemma_rt_le(v as nat, 8);
}

/// Decodes an 8-byte little-endian `u64`.
pub fn decode_u64(b: &Vec<u8>, pos: usize) -> (r: Option<(u64, usize)>)
    ensures
        (r matches Some(p) ==> sd_u64(b@, pos as int) == Some((p.0, p.1 as int))),
        (r is None ==> sd_u64(b@, pos as int) is None),
{
    if pos >= b.len() || b.len() - pos < 8 {
        return None;
    }
    proof {
        lemma_pow256_values();
    }
    let mut v: u64 = 0;
    let mut i: usize = 8;
    while i > 0
        invariant
            0 <= i <= 8,
            pos + 8 <= b@.len(),
            b@.len() <= usize::MAX,
            v == le_val(b@.subrange(pos + i, pos as int + 8)),
            pow256(8) == 0x1_0000_0000_0000_0000,
        decreases i,
    {
        proof {
            lemma_le_val_bound(b@.subrange(pos + i, pos as int + 8));
            assert(pow256((8 - i) as nat) <= pow256(7)) by {
                lemma_pow256_le((8 - i) as nat, 7);
            };
            lemma_pow256_values();
        }
        i = i - 1;
        v = v * 256 + (b[pos + i] as u64);
        proof {
            assert(b@.subrange(pos + i, pos as int + 8).drop_first() =~= b@.subrange(
                pos + i + 1,
                pos as int + 8,
            ));
            assert(b@.subrange(pos + i, pos as int + 8)[0] == b@[pos + i]);
        }
    }
    proof {
        lemma_le_val_bound(b@.subrange(pos as int, pos as int + 8));
        vstd::arithmetic::div_mod::lemma_small_mod(v as nat, 0x1_0000_0000_0000_0000);
    }
    Some((v, pos + 8))
}

/// The concrete values of small powers of 256.
pub proof fn lemma_pow256_values()
    ensures
        pow256(7) == 0x100_0000_0000_0000,
        pow256(8) == 0x1_0000_0000_0000_0000,
{
    reveal_with_fuel(pow256, 9);
}

/// 256^n is positive.
pub proof fn lemma_pow256_pos(n: nat)
    ensures
        pow256(n) > 0,
    decreases n,
{
    if n > 0 {
        lemma_pow256_pos((n - 1) as nat);
    }
}

/// Monotonicity of 256^n.
pub proof fn lemma_pow256_le(a: nat, b: nat)
    requires
        a <= b,
    ensures
        pow256(a) <= pow256(b),
    decreases b,
{
    if a < b && b > 0 {
        lemma_pow256_le(a, (b - 1) as nat);
        assert(pow256(b) == 256 * pow256((b - 1) as nat));
    }
}

/// Encodes a `u64` as 8 little-endian bytes, appending to `out`.
pub fn encode_u64(out: &mut Vec<u8>, v: u64)
    ensures
        final(out)@ == old(out)@ + enc_u64(v),
{
    let mut v2: u64 = v;
    let mut i: usize = 0;
    proof {
        lemma_pow256_values();
        vstd::arithmetic::div_mod::lemma_div_basics(v as int);
    }
    while i < 8
        invariant
            0 <= i <= 8,
            out@.len() == old(out)@.len() + i,
            v2 == le_whole(v) / pow256(i as nat),
            out@ == old(out)@ + enc_le(v as nat, 8).take(i as int),
        decreases 8 - i,
    {
        proof {
            lemma_enc_le_index(v as nat, 8, i as nat);
        }
        out.push((v2 % 256) as u8);
        v2 = v2 / 256;
        proof {
            lemma_pow256_step(v as nat, i as nat);
            assert(out@ =~= old(out)@ + enc_le(v as nat, 8).take(i as int + 1));
        }
        i = i + 1;
    }
    proof {
        lemma_rt_le(v as nat, 8);
        assert(enc_le(v as nat, 8).take(8) =~= enc_le(v as nat, 8));
    }
}

/// Helper: the value itself, as a `nat`.
pub open spec fn le_whole(v: u64) -> nat {
    v as nat
}

/// The byte at index `i` of an `n`-byte little-endian encoding is
/// `(v / 256^i) % 256`, and dividing twice steps the exponent.
pub proof fn lemma_enc_le_index(v: nat, n: nat, i: nat)
    requires
        i < n,
    ensures
        enc_le(v, n).len() == n,
        enc_le(v, n)[i as int] == ((v / pow256(i)) % 256) as u8,
    decreases i,
{
    lemma_enc_le_len(v, n);
    if i == 0 {
        vstd::arithmetic::div_mod::lemma_div_basics(v as int);
        assert(v / pow256(0) == v);
    } else {
        lemma_enc_le_index(v / 256, (n - 1) as nat, (i - 1) as nat);
        lemma_pow256_div_step(v, (i - 1) as nat);
        assert(enc_le(v, n)[i as int] == enc_le(v / 256, (n - 1) as nat)[i - 1]);
    }
}

/// Length of a little-endian encoding.
pub proof fn lemma_enc_le_len(v: nat, n: nat)
    ensures
        enc_le(v, n).len() == n,
    decreases n,
{
    if n > 0 {
        lemma_enc_le_len(v / 256, (n - 1) as nat);
    }
}

/// (v / 256) / 256^i == v / 256^(i+1).
pub proof fn lemma_pow256_div_step(v: nat, i: nat)
    ensures
        (v / 256) / pow256(i) == v / pow256((i + 1) as nat),
{
    lemma_pow256_pos(i);
    vstd::arithmetic::div_mod::lemma_div_denominator(v as int, 256, pow256(i) as int);
    assert(pow256((i + 1) as nat) == 256 * pow256(i));
}

/// Stepping the running quotient in the encoder.
pub proof fn lemma_pow256_step(v: nat, i: nat)
    ensures
        (v / pow256(i)) / 256 == v / pow256((i + 1) as nat),
{
    lemma_pow256_pos(i);
    vstd::arithmetic::div_mod::lemma_div_denominator(v as int, pow256(i) as int, 256);
    assert(pow256((i + 1) as nat) == 256 * pow256(i)) by {
        lemma_pow256_mul(i);
    };
}

/// 256^(i+1) == 256^i * 256.
pub proof fn lemma_pow256_mul(i: nat)
    ensures
        pow256((i + 1) as nat) == 256 * pow256(i),
        pow256((i + 1) as nat) == pow256(i) * 256,
{
}

// ------------------------------------------------------------------
// Names
// ------------------------------------------------------------------

/// A wire name: non-empty and at most 255 bytes.
pub open spec fn name_wf(n: Seq<u8>) -> bool {
    1 <= n.len() <= 255
}

/// A length byte followed by the name's bytes.
pub open spec fn enc_name(n: Seq<u8>) -> Seq<u8> {
    seq![n.len() as u8] + n
}

/// Decoding a name at `pos`.
pub open spec fn sd_name(b: Seq<u8>, pos: int) -> Option<(Seq<u8>, int)> {
    if 0 <= pos < b.len() {
        let l = b[pos] as int;
        if l >= 1 && pos + 1 + l <= b.len() {
            Some((b.subrange(pos + 1, pos + 1 + l), pos + 1 + l))
        } else {
            None
        }
    } else {
        None
    }
}

/// Round trip for names.
pub proof fn lemma_rt_name(b: Seq<u8>, pos: int, n: Seq<u8>)
    requires
        name_wf(n),
        0 <= pos,
        pos + 1 + n.len() <= b.len(),
        b.subrange(pos, pos + 1 + n.len()) == enc_name(n),
    ensures
        sd_name(b, pos) == Some((n, pos + 1 + n.len())),
{
    assert(b[pos] == enc_name(n)[0]);
    assert(b[pos] == n.len() as u8);
    assert(b.subrange(pos + 1, pos + 1 + n.len()) =~= n) by {
        assert forall|j: int| 0 <= j < n.len() implies b[pos + 1 + j] == n[j] by {
            assert(b.subrange(pos, pos + 1 + n.len())[1 + j] == b[pos + 1 + j]);
            assert(enc_name(n)[1 + j] == n[j]);
        };
    };
}

/// Decodes a name.
pub fn decode_name(b: &Vec<u8>, pos: usize) -> (r: Option<(Vec<u8>, usize)>)
    ensures
        (r matches Some(p) ==> sd_name(b@, pos as int) == Some((p.0@, p.1 as int))),
        (r is None ==> sd_name(b@, pos as int) is None),
{
    if pos >= b.len() {
        return None;
    }
    let l = b[pos] as usize;
    if l == 0 || b.len() - pos - 1 < l {
        return None;
    }
    let mut out: Vec<u8> = Vec::new();
    let mut j: usize = 0;
    while j < l
        invariant
            0 <= j <= l,
            pos + 1 + l <= b@.len(),
            b@.len() <= usize::MAX,
            out@.len() == j,
            forall|k: int| 0 <= k < j ==> out@[k] == b@[pos + 1 + k],
        decreases l - j,
    {
        out.push(b[pos + 1 + j]);
        j = j + 1;
    }
    proof {
        assert(out@ =~= b@.subrange(pos as int + 1, pos as int + 1 + l));
    }
    Some((out, pos + 1 + l))
}

/// Encodes a name, appending to `out`.
pub fn encode_name(out: &mut Vec<u8>, n: &Vec<u8>)
    requires
        1 <= n@.len() <= 255,
    ensures
        final(out)@ == old(out)@ + enc_name(n@),
{
    out.push(n.len() as u8);
    let mut j: usize = 0;
    while j < n.len()
        invariant
            0 <= j <= n@.len(),
            n@.len() <= 255,
            out@ == old(out)@ + seq![n@.len() as u8] + n@.take(j as int),
        decreases n@.len() - j,
    {
        out.push(n[j]);
        proof {
            assert(out@ =~= old(out)@ + seq![n@.len() as u8] + n@.take(j as int + 1));
        }
        j = j + 1;
    }
    proof {
        assert(n@.take(n@.len() as int) =~= n@);
        assert(out@ =~= old(out)@ + enc_name(n@));
    }
}

// ------------------------------------------------------------------
// Type tags
// ------------------------------------------------------------------

/// The wire byte of a type tag.
pub open spec fn tag_byte(t: TypeTag) -> u8 {
    match t {
        TypeTag::Bool => 0,
        TypeTag::U8 => 1,
        TypeTag::U64 => 2,
        TypeTag::U128 => 3,
        TypeTag::Address => 4,
        TypeTag::Signer => 5,
        TypeTag::Bytes => 6,
        TypeTag::Unit => 7,
    }
}

/// The type tag a wire byte denotes.
pub open spec fn byte_tag(x: u8) -> Option<TypeTag> {
    if x == 0 {
        Some(TypeTag::Bool)
    } else if x == 1 {
        Some(TypeTag::U8)
    } else if x == 2 {
        Some(TypeTag::U64)
    } else if x == 3 {
        Some(TypeTag::U128)
    } else if x == 4 {
        Some(TypeTag::Address)
    } else if x == 5 {
        Some(TypeTag::Signer)
    } else if x == 6 {
        Some(TypeTag::Bytes)
    } else if x == 7 {
        Some(TypeTag::Unit)
    } else {
        None
    }
}

/// One byte per tag.
pub open spec fn enc_tag(t: TypeTag) -> Seq<u8> {
    seq![tag_byte(t)]
}

/// Decoding a type tag at `pos`.
pub open spec fn sd_tag(b: Seq<u8>, pos: int) -> Option<(TypeTag, int)> {
    if 0 <= pos < b.len() {
        match byte_tag(b[pos]) {
            Some(t) => Some((t, pos + 1)),
            None => None,
        }
    } else {
        None
    }
}

/// Round trip for type tags.
pub proof fn lemma_rt_tag(b: Seq<u8>, pos: int, t: TypeTag)
    requires
        0 <= pos < b.len(),
        b[pos] == tag_byte(t),
    ensures
        sd_tag(b, pos) == Some((t, pos + 1)),
{
}

/// Decodes a type tag.
pub fn decode_tag(b: &Vec<u8>, pos: usize) -> (r: Option<(TypeTag, usize)>)
    ensures
        (r matches Some(p) ==> sd_tag(b@, pos as int) == Some((p.0, p.1 as int))),
        (r is None ==> sd_tag(b@, pos as int) is None),
{
    if pos >= b.len() {
        return None;
    }
    let x = b[pos];
    let t = if x == 0 {
        Some(TypeTag::Bool)
    } else if x == 1 {
        Some(TypeTag::U8)
    } else if x == 2 {
        Some(TypeTag::U64)
    } else if x == 3 {
        Some(TypeTag::U128)
    } else if x == 4 {
        Some(TypeTag::Address)
    } else if x == 5 {
        Some(TypeTag::Signer)
    } else if x == 6 {
        Some(TypeTag::Bytes)
    } else if x == 7 {
        Some(TypeTag::Unit)
    } else {
        None
    };
    match t {
        Some(t) => Some((t, pos + 1)),
        None => None,
    }
}

/// Encodes a type tag, appending to `out`.
pub fn encode_tag(out: &mut Vec<u8>, t: TypeTag)
    ensures
        final(out)@ == old(out)@ + enc_tag(t),
{
    let x: u8 = match t {
        TypeTag::Bool => 0,
        TypeTag::U8 => 1,
        TypeTag::U64 => 2,
        TypeTag::U128 => 3,
        TypeTag::Address => 4,
        TypeTag::Signer => 5,
        TypeTag::Bytes => 6,
        TypeTag::Unit => 7,
    };
    out.push(x);
    proof {
        assert(out@ =~= old(out)@ + enc_tag(t));
    }
}

// ------------------------------------------------------------------
// Tag lists
// ------------------------------------------------------------------

/// Concatenated tag encodings, front first.
pub open spec fn enc_tags_items(s: Seq<TypeTag>) -> Seq<u8>
    decreases s.len(),
{
    if s.len() == 0 {
        Seq::empty()
    } else {
        enc_tag(s[0]) + enc_tags_items(s.drop_first())
    }
}

/// Appending one tag appends its encoding.
pub proof fn lemma_enc_tags_snoc(s: Seq<TypeTag>, t: TypeTag)
    ensures
        enc_tags_items(s.push(t)) == enc_tags_items(s) + enc_tag(t),
    decreases s.len(),
{
    if s.len() == 0 {
        assert(s.push(t)[0] == t);
        assert(s.push(t).drop_first() =~= Seq::<TypeTag>::empty());
        reveal_with_fuel(enc_tags_items, 3);
        assert(enc_tags_items(s.push(t)) =~= enc_tags_items(s) + enc_tag(t));
    } else {
        assert(s.push(t).drop_first() =~= s.drop_first().push(t));
        lemma_enc_tags_snoc(s.drop_first(), t);
        assert(enc_tags_items(s.push(t)) =~= enc_tags_items(s) + enc_tag(t));
    }
}

/// A tag list encodes to one byte per tag.
pub proof fn lemma_enc_tags_items_len(s: Seq<TypeTag>)
    ensures
        enc_tags_items(s).len() == s.len(),
    decreases s.len(),
{
    if s.len() > 0 {
        lemma_enc_tags_items_len(s.drop_first());
    }
}

/// Decoding `count` tags at `pos`.
pub open spec fn sd_tags_items(b: Seq<u8>, pos: int, count: nat) -> Option<(Seq<TypeTag>, int)>
    decreases count,
{
    if count == 0 {
        Some((Seq::empty(), pos))
    } else {
        match sd_tag(b, pos) {
            Some((t, p1)) => match sd_tags_items(b, p1, (count - 1) as nat) {
                Some((rest, p2)) => Some((seq![t] + rest, p2)),
                None => None,
            },
            None => None,
        }
    }
}

/// Round trip for tag items.
pub proof fn lemma_rt_tags_items(b: Seq<u8>, pos: int, s: Seq<TypeTag>)
    requires
        0 <= pos,
        pos + s.len() <= b.len(),
        b.subrange(pos, pos + s.len()) == enc_tags_items(s),
    ensures
        sd_tags_items(b, pos, s.len()) == Some((s, pos + s.len())),
    decreases s.len(),
{
    lemma_enc_tags_items_len(s);
    if s.len() > 0 {
        assert(b[pos] == enc_tags_items(s)[0]);
        assert(enc_tags_items(s)[0] == tag_byte(s[0]));
        lemma_rt_tag(b, pos, s[0]);
        lemma_enc_tags_items_len(s.drop_first());
        assert(b.subrange(pos + 1, pos + s.len()) =~= enc_tags_items(s.drop_first())) by {
            assert forall|j: int| 0 <= j < s.len() - 1 implies b[pos + 1 + j] == enc_tags_items(
                s.drop_first(),
            )[j] by {
                assert(b.subrange(pos, pos + s.len())[1 + j] == b[pos + 1 + j]);
                assert(enc_tags_items(s)[1 + j] == enc_tags_items(s.drop_first())[j]);
            };
        };
        lemma_rt_tags_items(b, pos + 1, s.drop_first());
        assert(seq![s[0]] + s.drop_first() =~= s);
    } else {
        assert(sd_tags_items(b, pos, 0) == Some((Seq::<TypeTag>::empty(), pos)));
        assert(s =~= Seq::<TypeTag>::empty());
    }
}

/// A count byte followed by the tags.
pub open spec fn enc_tags(s: Seq<TypeTag>) -> Seq<u8> {
    seq![s.len() as u8] + enc_tags_items(s)
}

/// Decoding a counted tag list at `pos`.
pub open spec fn sd_tags(b: Seq<u8>, pos: int) -> Option<(Seq<TypeTag>, int)> {
    if 0 <= pos < b.len() {
        sd_tags_items(b, pos + 1, b[pos] as nat)
    } else {
        None
    }
}

/// Round trip for counted tag lists.
pub proof fn lemma_rt_tags(b: Seq<u8>, pos: int, s: Seq<TypeTag>)
    requires
        s.len() <= 255,
        0 <= pos,
        pos + 1 + s.len() <= b.len(),
        b.subrange(pos, pos + 1 + s.len()) == enc_tags(s),
    ensures
        sd_tags(b, pos) == Some((s, pos + 1 + s.len())),
{
    lemma_enc_tags_items_len(s);
    assert(b[pos] == enc_tags(s)[0]);
    assert(b[pos] == s.len() as u8);
    assert(b.subrange(pos + 1, pos + 1 + s.len()) =~= enc_tags_items(s)) by {
        assert forall|j: int| 0 <= j < s.len() implies b[pos + 1 + j] == enc_tags_items(s)[j] by {
            assert(b.subrange(pos, pos + 1 + s.len())[1 + j] == b[pos + 1 + j]);
            assert(enc_tags(s)[1 + j] == enc_tags_items(s)[j]);
        };
    };
    lemma_rt_tags_items(b, pos + 1, s);
}

/// Decodes `count` tags.
pub fn decode_tags_items(b: &Vec<u8>, pos: usize, count: u8) -> (r: Option<(Vec<TypeTag>, usize)>)
    ensures
        (r matches Some(p) ==> sd_tags_items(b@, pos as int, count as nat) == Some((
            p.0@,
            p.1 as int,
        ))),
        (r is None ==> sd_tags_items(b@, pos as int, count as nat) is None),
    decreases count,
{
    if count == 0 {
        let v: Vec<TypeTag> = Vec::new();
        proof {
            assert(v@ =~= Seq::<TypeTag>::empty());
        }
        return Some((v, pos));
    }
    match decode_tag(b, pos) {
        None => None,
        Some((t, p1)) => match decode_tags_items(b, p1, count - 1) {
            None => None,
            Some((mut rest, p2)) => {
                let ghost before = rest@;
                rest.insert(0, t);
                proof {
                    assert(rest@ =~= seq![t] + before);
                }
                Some((rest, p2))
            },
        },
    }
}

/// Decodes a counted tag list.
pub fn decode_tags(b: &Vec<u8>, pos: usize) -> (r: Option<(Vec<TypeTag>, usize)>)
    ensures
        (r matches Some(p) ==> sd_tags(b@, pos as int) == Some((p.0@, p.1 as int))),
        (r is None ==> sd_tags(b@, pos as int) is None),
{
    if pos >= b.len() {
        return None;
    }
    let count = b[pos];
    decode_tags_items(b, pos + 1, count)
}

/// Encodes a counted tag list, appending to `out`.
pub fn encode_tags(out: &mut Vec<u8>, s: &Vec<TypeTag>)
    requires
        s@.len() <= 255,
    ensures
        final(out)@ == old(out)@ + enc_tags(s@),
{
    out.push(s.len() as u8);
    let mut i: usize = 0;
    while i < s.len()
        invariant
            0 <= i <= s@.len(),
            s@.len() <= 255,
            out@ == old(out)@ + seq![s@.len() as u8] + enc_tags_items(s@.take(i as int)),
        decreases s@.len() - i,
    {
        encode_tag(out, s[i]);
        proof {
            assert(s@.take(i as int).push(s@[i as int]) =~= s@.take(i as int + 1));
            lemma_enc_tags_snoc(s@.take(i as int), s@[i as int]);
            assert(out@ =~= old(out)@ + seq![s@.len() as u8] + enc_tags_items(
                s@.take(i as int + 1),
            ));
        }
        i = i + 1;
    }
    proof {
        assert(s@.take(s@.len() as int) =~= s@);
        assert(out@ =~= old(out)@ + enc_tags(s@));
    }
}

} // verus!

verus! {

// ------------------------------------------------------------------
// Dependencies
// ------------------------------------------------------------------

/// A dependency on the wire: owning address, then name.
pub open spec fn dep_wf(d: (int, Seq<u8>)) -> bool {
    0 <= d.0 < pow256(8) && name_wf(d.1)
}

/// Encoding of one dependency.
pub open spec fn enc_dep(d: (int, Seq<u8>)) -> Seq<u8> {
    enc_le(d.0 as nat, 8) + enc_name(d.1)
}

/// Decoding one dependency at `pos`.
pub open spec fn sd_dep(b: Seq<u8>, pos: int) -> Option<((int, Seq<u8>), int)> {
    match sd_u64(b, pos) {
        Some((v, p1)) => match sd_name(b, p1) {
            Some((n, p2)) => Some(((v as int, n), p2)),
            None => None,
        },
        None => None,
    }
}

/// Splitting a known byte range at a concatenation boundary.
pub proof fn lemma_subrange_split(b: Seq<u8>, pos: int, e1: Seq<u8>, e2: Seq<u8>)
    requires
        0 <= pos,
        pos + e1.len() + e2.len() <= b.len(),
        b.subrange(pos, pos + e1.len() + e2.len()) == e1 + e2,
    ensures
        b.subrange(pos, pos + e1.len()) == e1,
        b.subrange(pos + e1.len(), pos + e1.len() + e2.len()) == e2,
{
    assert(b.subrange(pos, pos + e1.len()) =~= e1) by {
        assert forall|j: int| 0 <= j < e1.len() implies b[pos + j] == e1[j] by {
            assert(b.subrange(pos, pos + e1.len() + e2.len())[j] == b[pos + j]);
            assert((e1 + e2)[j] == e1[j]);
        };
    };
    assert(b.subrange(pos + e1.len(), pos + e1.len() + e2.len()) =~= e2) by {
        assert forall|j: int| 0 <= j < e2.len() implies b[pos + e1.len() + j] == e2[j] by {
            assert(b.subrange(pos, pos + e1.len() + e2.len())[e1.len() + j] == b[pos + e1.len()
                + j]);
            assert((e1 + e2)[e1.len() + j] == e2[j]);
        };
    };
}

/// Round trip for one dependency.
pub proof fn lemma_rt_dep(b: Seq<u8>, pos: int, d: (int, Seq<u8>))
    requires
        dep_wf(d),
        0 <= pos,
        pos + enc_dep(d).len() <= b.len(),
        b.subrange(pos, pos + enc_dep(d).len()) == enc_dep(d),
    ensures
        sd_dep(b, pos) == Some((d, pos + enc_dep(d).len())),
{
    lemma_pow256_values();
    lemma_rt_le(d.0 as nat, 8);
    lemma_subrange_split(b, pos, enc_le(d.0 as nat, 8), enc_name(d.1));
    assert((d.0 as u64) as nat == d.0 as nat);
    assert(enc_u64(d.0 as u64) == enc_le(d.0 as nat, 8));
    lemma_rt_u64(b, pos, d.0 as u64);
    lemma_rt_name(b, pos + 8, d.1);
}

/// Decodes one dependency.
pub fn decode_dep(b: &Vec<u8>, pos: usize) -> (r: Option<(crate::state::ModuleId, usize)>)
    ensures
        (r matches Some(p) ==> sd_dep(b@, pos as int) == Some((p.0@, p.1 as int))),
        (r is None ==> sd_dep(b@, pos as int) is None),
{
    match decode_u64(b, pos) {
        None => None,
        Some((v, p1)) => match decode_name(b, p1) {
            None => None,
            Some((n, p2)) => Some((
                crate::state::ModuleId { addr: crate::addr::MoveAddress { value: v }, name: n },
                p2,
            )),
        },
    }
}

/// Encodes one dependency, appending to `out`.
pub fn encode_dep(out: &mut Vec<u8>, d: &crate::state::ModuleId)
    requires
        name_wf(d.name@),
    ensures
        final(out)@ == old(out)@ + enc_dep(d@),
{
    encode_u64(out, d.addr.value);
    encode_name(out, &d.name);
    proof {
        assert(out@ =~= old(out)@ + enc_dep(d@));
    }
}

} // verus!

verus! {

// ------------------------------------------------------------------
// Dependency lists
// ------------------------------------------------------------------

/// Concatenated dependency encodings, front first.
pub open spec fn enc_deps_items(s: Seq<(int, Seq<u8>)>) -> Seq<u8>
    decreases s.len(),
{
    if s.len() == 0 {
        Seq::empty()
    } else {
        enc_dep(s[0]) + enc_deps_items(s.drop_first())
    }
}

/// Appending one dependency appends its encoding.
pub proof fn lemma_enc_deps_snoc(s: Seq<(int, Seq<u8>)>, t: (int, Seq<u8>))
    ensures
        enc_deps_items(s.push(t)) == enc_deps_items(s) + enc_dep(t),
    decreases s.len(),
{
    if s.len() == 0 {
        assert(s.push(t)[0] == t);
        assert(s.push(t).drop_first() =~= Seq::<(int, Seq<u8>)>::empty());
        reveal_with_fuel(enc_deps_items, 3);
        assert(enc_deps_items(s.push(t)) =~= enc_deps_items(s) + enc_dep(t));
    } else {
        assert(s.push(t).drop_first() =~= s.drop_first().push(t));
        lemma_enc_deps_snoc(s.drop_first(), t);
        assert(enc_deps_items(s.push(t)) =~= enc_deps_items(s) + enc_dep(t));
    }
}

/// Decoding `count` dependencies at `pos`.
pub open spec fn sd_deps_items(b: Seq<u8>, pos: int, count: nat) -> Option<
    (Seq<(int, Seq<u8>)>, int),
>
    decreases count,
{
    if count == 0 {
        Some((Seq::empty(), pos))
    } else {
        match sd_dep(b, pos) {
            Some((d, p1)) => match sd_deps_items(b, p1, (count - 1) as nat) {
                Some((rest, p2)) => Some((seq![d] + rest, p2)),
                None => None,
            },
            None => None,
        }
    }
}

/// Round trip for dependency items.
pub proof fn lemma_rt_deps_items(b: Seq<u8>, pos: int, s: Seq<(int, Seq<u8>)>)
    requires
        forall|i: int| 0 <= i < s.len() ==> dep_wf(s[i]),
        0 <= pos,
        pos + enc_deps_items(s).len() <= b.len(),
        b.subrange(pos, pos + enc_deps_items(s).len()) == enc_deps_items(s),
    ensures
        sd_deps_items(b, pos, s.len()) == Some((s, pos + enc_deps_items(s).len())),
    decreases s.len(),
{
    if s.len() == 0 {
        assert(s =~= Seq::<(int, Seq<u8>)>::empty());
    } else {
        let e1 = enc_dep(s[0]);
        let e2 = enc_deps_items(s.drop_first());
        assert(enc_deps_items(s) == e1 + e2);
        lemma_subrange_split(b, pos, e1, e2);
        lemma_rt_dep(b, pos, s[0]);
        lemma_rt_deps_items(b, pos + e1.len(), s.drop_first());
        assert(seq![s[0]] + s.drop_first() =~= s);
    }
}

/// Decoded dependency items are well formed, `count` many.
pub proof fn lemma_sd_deps_items_wf(b: Seq<u8>, pos: int, count: nat)
    ensures
        (sd_deps_items(b, pos, count) matches Some(p) ==> p.0.len() == count && forall|i: int|
            0 <= i < p.0.len() ==> dep_wf(p.0[i])),
    decreases count,
{
    lemma_pow256_values();
    if count > 0 {
        match sd_dep(b, pos) {
            Some((d, p1)) => {
                lemma_sd_deps_items_wf(b, p1, (count - 1) as nat);
            },
            None => {},
        }
    }
}

/// A count byte followed by the dependencies.
pub open spec fn enc_deps(s: Seq<(int, Seq<u8>)>) -> Seq<u8> {
    seq![s.len() as u8] + enc_deps_items(s)
}

/// Decoding a counted dependency list at `pos`.
pub open spec fn sd_deps(b: Seq<u8>, pos: int) -> Option<(Seq<(int, Seq<u8>)>, int)> {
    if 0 <= pos < b.len() {
        sd_deps_items(b, pos + 1, b[pos] as nat)
    } else {
        None
    }
}

/// Round trip for counted dependency lists.
pub proof fn lemma_rt_deps(b: Seq<u8>, pos: int, s: Seq<(int, Seq<u8>)>)
    requires
        s.len() <= 255,
        forall|i: int| 0 <= i < s.len() ==> dep_wf(s[i]),
        0 <= pos,
        pos + enc_deps(s).len() <= b.len(),
        b.subrange(pos, pos + enc_deps(s).len()) == enc_deps(s),
    ensures
        sd_deps(b, pos) == Some((s, pos + enc_deps(s).len())),
{
    lemma_subrange_split(b, pos, seq![s.len() as u8], enc_deps_items(s));
    assert(b[pos] == s.len() as u8) by {
        assert(b.subrange(pos, pos + 1)[0] == b[pos]);
    };
    lemma_rt_deps_items(b, pos + 1, s);
}

/// Decodes `count` dependencies.
pub fn decode_deps_items(b: &Vec<u8>, pos: usize, count: u8) -> (r: Option<
    (Vec<crate::state::ModuleId>, usize),
>)
    ensures
        (r matches Some(p) ==> sd_deps_items(b@, pos as int, count as nat) == Some((
            p.0@.map_values(|d: crate::state::ModuleId| d@),
            p.1 as int,
        ))),
        (r is None ==> sd_deps_items(b@, pos as int, count as nat) is None),
    decreases count,
{
    if count == 0 {
        let v: Vec<crate::state::ModuleId> = Vec::new();
        proof {
            assert(v@.map_values(|d: crate::state::ModuleId| d@) =~= Seq::<
                (int, Seq<u8>),
            >::empty());
        }
        return Some((v, pos));
    }
    match decode_dep(b, pos) {
        None => None,
        Some((d, p1)) => match decode_deps_items(b, p1, count - 1) {
            None => None,
            Some((mut rest, p2)) => {
                let ghost before = rest@;
                let ghost dv = d@;
                rest.insert(0, d);
                proof {
                    assert(rest@ =~= seq![rest@[0]] + before);
                    assert(rest@.map_values(|d: crate::state::ModuleId| d@) =~= seq![dv]
                        + before.map_values(|d: crate::state::ModuleId| d@));
                }
                Some((rest, p2))
            },
        },
    }
}

/// Decodes a counted dependency list.
pub fn decode_deps(b: &Vec<u8>, pos: usize) -> (r: Option<(Vec<crate::state::ModuleId>, usize)>)
    ensures
        (r matches Some(p) ==> sd_deps(b@, pos as int) == Some((
            p.0@.map_values(|d: crate::state::ModuleId| d@),
            p.1 as int,
        ))),
        (r is None ==> sd_deps(b@, pos as int) is None),
{
    if pos >= b.len() {
        return None;
    }
    let count = b[pos];
    decode_deps_items(b, pos + 1, count)
}

/// Encodes a counted dependency list, appending to `out`.
pub fn encode_deps(out: &mut Vec<u8>, s: &Vec<crate::state::ModuleId>)
    requires
        s@.len() <= 255,
        forall|i: int| 0 <= i < s@.len() ==> name_wf(s@[i].name@),
    ensures
        final(out)@ == old(out)@ + enc_deps(s@.map_values(|d: crate::state::ModuleId| d@)),
{
    let ghost sv = s@.map_values(|d: crate::state::ModuleId| d@);
    out.push(s.len() as u8);
    let mut i: usize = 0;
    while i < s.len()
        invariant
            0 <= i <= s@.len(),
            s@.len() <= 255,
            forall|k: int| 0 <= k < s@.len() ==> name_wf(s@[k].name@),
            sv == s@.map_values(|d: crate::state::ModuleId| d@),
            sv.len() == s@.len(),
            forall|k: int| 0 <= k < s@.len() ==> sv[k] == s@[k]@,
            out@ == old(out)@ + seq![sv.len() as u8] + enc_deps_items(sv.take(i as int)),
        decreases s@.len() - i,
    {
        encode_dep(out, &s[i]);
        proof {
            assert(sv.take(i as int).push(sv[i as int]) =~= sv.take(i as int + 1));
            lemma_enc_deps_snoc(sv.take(i as int), sv[i as int]);
            assert(out@ =~= old(out)@ + seq![sv.len() as u8] + enc_deps_items(
                sv.take(i as int + 1),
            ));
        }
        i = i + 1;
    }
    proof {
        assert(sv.take(sv.len() as int) =~= sv);
        assert(out@ =~= old(out)@ + enc_deps(sv));
    }
}

} // verus!

verus! {

// ------------------------------------------------------------------
// Function signatures
// ------------------------------------------------------------------

/// A wire function signature: well-formed name, at most 255 parameters.
pub open spec fn sig_wf(f: crate::abi::FnSigView) -> bool {
    name_wf(f.name) && f.params.len() <= 255
}

/// Encoding of one function signature.
pub open spec fn enc_sig(f: crate::abi::FnSigView) -> Seq<u8> {
    enc_name(f.name) + seq![if f.is_public { 1u8 } else { 0u8 }] + enc_tags(f.params) + enc_tag(
        f.ret,
    )
}

/// Decoding one function signature at `pos`.
pub open spec fn sd_sig(b: Seq<u8>, pos: int) -> Option<(crate::abi::FnSigView, int)> {
    match sd_name(b, pos) {
        Some((nm, p1)) => if 0 <= p1 < b.len() && (b[p1] == 0 || b[p1] == 1) {
            match sd_tags(b, p1 + 1) {
                Some((ps, p2)) => match sd_tag(b, p2) {
                    Some((rt, p3)) => Some((
                        crate::abi::FnSigView {
                            name: nm,
                            is_public: b[p1] == 1,
                            params: ps,
                            ret: rt,
                        },
                        p3,
                    )),
                    None => None,
                },
                None => None,
            }
        } else {
            None
        },
        None => None,
    }
}

/// Round trip for one function signature.
pub proof fn lemma_rt_sig(b: Seq<u8>, pos: int, f: crate::abi::FnSigView)
    requires
        sig_wf(f),
        0 <= pos,
        pos + enc_sig(f).len() <= b.len(),
        b.subrange(pos, pos + enc_sig(f).len()) == enc_sig(f),
    ensures
        sd_sig(b, pos) == Some((f, pos + enc_sig(f).len())),
{
    let vis = seq![if f.is_public { 1u8 } else { 0u8 }];
    let e1 = enc_name(f.name);
    let e2 = vis + enc_tags(f.params) + enc_tag(f.ret);
    assert(enc_sig(f) =~= e1 + e2);
    lemma_subrange_split(b, pos, e1, e2);
    lemma_rt_name(b, pos, f.name);
    let p1 = pos + e1.len();
    assert(e2 =~= vis + (enc_tags(f.params) + enc_tag(f.ret)));
    lemma_subrange_split(b, p1, vis, enc_tags(f.params) + enc_tag(f.ret));
    assert(b[p1] == vis[0]) by {
        assert(b.subrange(p1, p1 + 1)[0] == b[p1]);
    };
    let p2 = p1 + 1;
    lemma_subrange_split(b, p2, enc_tags(f.params), enc_tag(f.ret));
    lemma_enc_tags_items_len(f.params);
    lemma_rt_tags(b, p2, f.params);
    let p3 = p2 + 1 + f.params.len();
    assert(b[p3] == tag_byte(f.ret)) by {
        assert(b.subrange(p3, p3 + 1)[0] == b[p3]);
    };
    lemma_rt_tag(b, p3, f.ret);
    match sd_sig(b, pos) {
        Some((g, pend)) => {
            assert(g =~= f);
            assert(pend == pos + enc_sig(f).len());
        },
        None => {
            assert(false);
        },
    }
}

/// Decodes one function signature.
pub fn decode_sig(b: &Vec<u8>, pos: usize) -> (r: Option<(crate::abi::FunctionSig, usize)>)
    ensures
        (r matches Some(p) ==> sd_sig(b@, pos as int) == Some((p.0@, p.1 as int))),
        (r is None ==> sd_sig(b@, pos as int) is None),
{
    match decode_name(b, pos) {
        None => None,
        Some((nm, p1)) => {
            if p1 >= b.len() {
                return None;
            }
            let vis = b[p1];
            if vis != 0 && vis != 1 {
                return None;
            }
            match decode_tags(b, p1 + 1) {
                None => None,
                Some((ps, p2)) => match decode_tag(b, p2) {
                    None => None,
                    Some((rt, p3)) => Some((
                        crate::abi::FunctionSig {
                            name: nm,
                            is_public: vis == 1,
                            params: ps,
                            ret: rt,
                        },
                        p3,
                    )),
                },
            }
        },
    }
}

/// Encodes one function signature, appending to `out`.
pub fn encode_sig(out: &mut Vec<u8>, f: &crate::abi::FunctionSig)
    requires
        sig_wf(f@),
    ensures
        final(out)@ == old(out)@ + enc_sig(f@),
{
    encode_name(out, &f.name);
    out.push(if f.is_public { 1 } else { 0 });
    encode_tags(out, &f.params);
    encode_tag(out, f.ret);
    proof {
        assert(out@ =~= old(out)@ + enc_sig(f@));
    }
}

// ------------------------------------------------------------------
// Data-type layouts
// ------------------------------------------------------------------

/// A wire layout: well-formed name, at most 255 fields.
pub open spec fn layout_wf(l: crate::abi::LayoutView) -> bool {
    name_wf(l.name) && l.fields.len() <= 255
}

/// Encoding of one layout.
pub open spec fn enc_layout(l: crate::abi::LayoutView) -> Seq<u8> {
    enc_name(l.name) + enc_tags(l.fields)
}

/// Decoding one layout at `pos`.
pub open spec fn sd_layout(b: Seq<u8>, pos: int) -> Option<(crate::abi::LayoutView, int)> {
    match sd_name(b, pos) {
        Some((nm, p1)) => match sd_tags(b, p1) {
            Some((fs, p2)) => Some((crate::abi::LayoutView { name: nm, fields: fs }, p2)),
            None => None,
        },
        None => None,
    }
}

/// Round trip for one layout.
pub proof fn lemma_rt_layout(b: Seq<u8>, pos: int, l: crate::abi::LayoutView)
    requires
        layout_wf(l),
        0 <= pos,
        pos + enc_layout(l).len() <= b.len(),
        b.subrange(pos, pos + enc_layout(l).len()) == enc_layout(l),
    ensures
        sd_layout(b, pos) == Some((l, pos + enc_layout(l).len())),
{
    lemma_subrange_split(b, pos, enc_name(l.name), enc_tags(l.fields));
    lemma_rt_name(b, pos, l.name);
    lemma_enc_tags_items_len(l.fields);
    lemma_rt_tags(b, pos + 1 + l.name.len(), l.fields);
    match sd_layout(b, pos) {
        Some((g, pend)) => {
            assert(g =~= l);
        },
        None => {
            assert(false);
        },
    }
}

/// Decodes one layout.
pub fn decode_layout(b: &Vec<u8>, pos: usize) -> (r: Option<(crate::abi::StructLayout, usize)>)
    ensures
        (r matches Some(p) ==> sd_layout(b@, pos as int) == Some((p.0@, p.1 as int))),
        (r is None ==> sd_layout(b@, pos as int) is None),
{
    match decode_name(b, pos) {
        None => None,
        Some((nm, p1)) => match decode_tags(b, p1) {
            None => None,
            Some((fs, p2)) => Some((crate::abi::StructLayout { name: nm, fields: fs }, p2)),
        },
    }
}

/// Encodes one layout, appending to `out`.
pub fn encode_layout(out: &mut Vec<u8>, l: &crate::abi::StructLayout)
    requires
        layout_wf(l@),
    ensures
        final(out)@ == old(out)@ + enc_layout(l@),
{
    encode_name(out, &l.name);
    encode_tags(out, &l.fields);
    proof {
        assert(out@ =~= old(out)@ + enc_layout(l@));
    }
}

} // verus!

verus! {

// ------------------------------------------------------------------
// function signature lists
// ------------------------------------------------------------------

/// Concatenated function signature encodings, front first.
pub open spec fn enc_sigs_items(s: Seq<crate::abi::FnSigView>) -> Seq<u8>
    decreases s.len(),
{
    if s.len() == 0 {
        Seq::empty()
    } else {
        enc_sig(s[0]) + enc_sigs_items(s.drop_first())
    }
}

/// Appending one function signature appends its encoding.
pub proof fn lemma_enc_sigs_snoc(s: Seq<crate::abi::FnSigView>, t: crate::abi::FnSigView)
    ensures
        enc_sigs_items(s.push(t)) == enc_sigs_items(s) + enc_sig(t),
    decreases s.len(),
{
    if s.len() == 0 {
        assert(s.push(t)[0] == t);
        assert(s.push(t).drop_first() =~= Seq::<crate::abi::FnSigView>::empty());
        reveal_with_fuel(enc_sigs_items, 3);
        assert(enc_sigs_items(s.push(t)) =~= enc_sigs_items(s) + enc_sig(t));
    } else {
        assert(s.push(t).drop_first() =~= s.drop_first().push(t));
        lemma_enc_sigs_snoc(s.drop_first(), t);
        assert(enc_sigs_items(s.push(t)) =~= enc_sigs_items(s) + enc_sig(t));
    }
}

/// Decoding `count` function signatures at `pos`.
pub open spec fn sd_sigs_items(b: Seq<u8>, pos: int, count: nat) -> Option<(Seq<crate::abi::FnSigView>, int)>
    decreases count,
{
    if count == 0 {
        Some((Seq::empty(), pos))
    } else {
        match sd_sig(b, pos) {
            Some((d, p1)) => match sd_sigs_items(b, p1, (count - 1) as nat) {
                Some((rest, p2)) => Some((seq![d] + rest, p2)),
                None => None,
            },
            None => None,
        }
    }
}

/// Round trip for function signature items.
pub proof fn lemma_rt_sigs_items(b: Seq<u8>, pos: int, s: Seq<crate::abi::FnSigView>)
    requires
        forall|i: int| 0 <= i < s.len() ==> sig_wf(s[i]),
        0 <= pos,
        pos + enc_sigs_items(s).len() <= b.len(),
        b.subrange(pos, pos + enc_sigs_items(s).len()) == enc_sigs_items(s),
    ensures
        sd_sigs_items(b, pos, s.len()) == Some((s, pos + enc_sigs_items(s).len())),
    decreases s.len(),
{
    if s.len() == 0 {
        assert(s =~= Seq::<crate::abi::FnSigView>::empty());
    } else {
        let e1 = enc_sig(s[0]);
        let e2 = enc_sigs_items(s.drop_first());
        assert(enc_sigs_items(s) == e1 + e2);
        lemma_subrange_split(b, pos, e1, e2);
        lemma_rt_sig(b, pos, s[0]);
        lemma_rt_sigs_items(b, pos + e1.len(), s.drop_first());
        assert(seq![s[0]] + s.drop_first() =~= s);
    }
}

/// Decoded function signature items are well formed, `count` many.
pub proof fn lemma_sd_sigs_items_wf(b: Seq<u8>, pos: int, count: nat)
    ensures
        (sd_sigs_items(b, pos, count) matches Some(p) ==> p.0.len() == count && forall|i: int|
            0 <= i < p.0.len() ==> sig_wf(p.0[i])),
    decreases count,
{
    if count > 0 {
        match sd_sig(b, pos) {
            Some((d, p1)) => {
                lemma_sd_sig_wf(b, pos);
                lemma_sd_sigs_items_wf(b, p1, (count - 1) as nat);
            },
            None => {},
        }
    }
}

/// A count byte followed by the function signatures.
pub open spec fn enc_sigs(s: Seq<crate::abi::FnSigView>) -> Seq<u8> {
    seq![s.len() as u8] + enc_sigs_items(s)
}

/// Decoding a counted function signature list at `pos`.
pub open spec fn sd_sigs(b: Seq<u8>, pos: int) -> Option<(Seq<crate::abi::FnSigView>, int)> {
    if 0 <= pos < b.len() {
        sd_sigs_items(b, pos + 1, b[pos] as nat)
    } else {
        None
    }
}

/// Round trip for counted function signature lists.
pub proof fn lemma_rt_sigs(b: Seq<u8>, pos: int, s: Seq<crate::abi::FnSigView>)
    requires
        s.len() <= 255,
        forall|i: int| 0 <= i < s.len() ==> sig_wf(s[i]),
        0 <= pos,
        pos + enc_sigs(s).len() <= b.len(),
        b.subrange(pos, pos + enc_sigs(s).len()) == enc_sigs(s),
    ensures
        sd_sigs(b, pos) == Some((s, pos + enc_sigs(s).len())),
{
    lemma_subrange_split(b, pos, seq![s.len() as u8], enc_sigs_items(s));
    assert(b[pos] == s.len() as u8) by {
        assert(b.subrange(pos, pos + 1)[0] == b[pos]);
    };
    lemma_rt_sigs_items(b, pos + 1, s);
}

/// Decodes `count` function signatures.
pub fn decode_sigs_items(b: &Vec<u8>, pos: usize, count: u8) -> (r: Option<(Vec<crate::abi::FunctionSig>, usize)>)
    ensures
        (r matches Some(p) ==> sd_sigs_items(b@, pos as int, count as nat) == Some((
            p.0@.map_values(|d: crate::abi::FunctionSig| d@),
            p.1 as int,
        ))),
        (r is None ==> sd_sigs_items(b@, pos as int, count as nat) is None),
    decreases count,
{
    if count == 0 {
        let v: Vec<crate::abi::FunctionSig> = Vec::new();
        proof {
            assert(v@.map_values(|d: crate::abi::FunctionSig| d@) =~= Seq::<crate::abi::FnSigView>::empty());
        }
        return Some((v, pos));
    }
    match decode_sig(b, pos) {
        None => None,
        Some((d, p1)) => match decode_sigs_items(b, p1, count - 1) {
            None => None,
            Some((mut rest, p2)) => {
                let ghost before = rest@;
                let ghost dv = d@;
                rest.insert(0, d);
                proof {
                    assert(rest@ =~= seq![rest@[0]] + before);
                    assert(rest@.map_values(|d: crate::abi::FunctionSig| d@) =~= seq![dv] + before.map_values(
                        |d: crate::abi::FunctionSig| d@,
                    ));
                }
                Some((rest, p2))
            },
        },
    }
}

/// Decodes a counted function signature list.
pub fn decode_sigs(b: &Vec<u8>, pos: usize) -> (r: Option<(Vec<crate::abi::FunctionSig>, usize)>)
    ensures
        (r matches Some(p) ==> sd_sigs(b@, pos as int) == Some((
            p.0@.map_values(|d: crate::abi::FunctionSig| d@),
            p.1 as int,
        ))),
        (r is None ==> sd_sigs(b@, pos as int) is None),
{
    if pos >= b.len() {
        return None;
    }
    let count = b[pos];
    decode_sigs_items(b, pos + 1, count)
}

/// Encodes a counted function signature list, appending to `out`.
pub fn encode_sigs(out: &mut Vec<u8>, s: &Vec<crate::abi::FunctionSig>)
    requires
        s@.len() <= 255,
        forall|i: int| 0 <= i < s@.len() ==> sig_wf(s@[i]@),
    ensures
        final(out)@ == old(out)@ + enc_sigs(s@.map_values(|d: crate::abi::FunctionSig| d@)),
{
    let ghost sv = s@.map_values(|d: crate::abi::FunctionSig| d@);
    out.push(s.len() as u8);
    let mut i: usize = 0;
    while i < s.len()
        invariant
            0 <= i <= s@.len(),
            s@.len() <= 255,
            forall|k: int| 0 <= k < s@.len() ==> sig_wf(s@[k]@),
            sv == s@.map_values(|d: crate::abi::FunctionSig| d@),
            sv.len() == s@.len(),
            forall|k: int| 0 <= k < s@.len() ==> sv[k] == s@[k]@,
            out@ == old(out)@ + seq![sv.len() as u8] + enc_sigs_items(sv.take(i as int)),
        decreases s@.len() - i,
    {
        encode_sig(out, &s[i]);
        proof {
            assert(sv.take(i as int).push(sv[i as int]) =~= sv.take(i as int + 1));
            lemma_enc_sigs_snoc(sv.take(i as int), sv[i as int]);
            assert(out@ =~= old(out)@ + seq![sv.len() as u8] + enc_sigs_items(
                sv.take(i as int + 1),
            ));
        }
        i = i + 1;
    }
    proof {
        assert(sv.take(sv.len() as int) =~= sv);
        assert(out@ =~= old(out)@ + enc_sigs(sv));
    }
}

} // verus!

verus! {

// ------------------------------------------------------------------
// layout lists
// ------------------------------------------------------------------

/// Concatenated layout encodings, front first.
pub open spec fn enc_layouts_items(s: Seq<crate::abi::LayoutView>) -> Seq<u8>
    decreases s.len(),
{
    if s.len() == 0 {
        Seq::empty()
    } else {
        enc_layout(s[0]) + enc_layouts_items(s.drop_first())
    }
}

/// Appending one layout appends its encoding.
pub proof fn lemma_enc_layouts_snoc(s: Seq<crate::abi::LayoutView>, t: crate::abi::LayoutView)
    ensures
        enc_layouts_items(s.push(t)) == enc_layouts_items(s) + enc_layout(t),
    decreases s.len(),
{
    if s.len() == 0 {
        assert(s.push(t)[0] == t);
        assert(s.push(t).drop_first() =~= Seq::<crate::abi::LayoutView>::empty());
        reveal_with_fuel(enc_layouts_items, 3);
        assert(enc_layouts_items(s.push(t)) =~= enc_layouts_items(s) + enc_layout(t));
    } else {
        assert(s.push(t).drop_first() =~= s.drop_first().push(t));
        lemma_enc_layouts_snoc(s.drop_first(), t);
        assert(enc_layouts_items(s.push(t)) =~= enc_layouts_items(s) + enc_layout(t));
    }
}

/// Decoding `count` layouts at `pos`.
pub open spec fn sd_layouts_items(b: Seq<u8>, pos: int, count: nat) -> Option<(Seq<crate::abi::LayoutView>, int)>
    decreases count,
{
    if count == 0 {
        Some((Seq::empty(), pos))
    } else {
        match sd_layout(b, pos) {
            Some((d, p1)) => match sd_layouts_items(b, p1, (count - 1) as nat) {
                Some((rest, p2)) => Some((seq![d] + rest, p2)),
                None => None,
            },
            None => None,
        }
    }
}

/// Round trip for layout items.
pub proof fn lemma_rt_layouts_items(b: Seq<u8>, pos: int, s: Seq<crate::abi::LayoutView>)
    requires
        forall|i: int| 0 <= i < s.len() ==> layout_wf(s[i]),
        0 <= pos,
        pos + enc_layouts_items(s).len() <= b.len(),
        b.subrange(pos, pos + enc_layouts_items(s).len()) == enc_layouts_items(s),
    ensures
        sd_layouts_items(b, pos, s.len()) == Some((s, pos + enc_layouts_items(s).len())),
    decreases s.len(),
{
    if s.len() == 0 {
        assert(s =~= Seq::<crate::abi::LayoutView>::empty());
    } else {
        let e1 = enc_layout(s[0]);
        let e2 = enc_layouts_items(s.drop_first());
        assert(enc_layouts_items(s) == e1 + e2);
        lemma_subrange_split(b, pos, e1, e2);
        lemma_rt_layout(b, pos, s[0]);
        lemma_rt_layouts_items(b, pos + e1.len(), s.drop_first());
        assert(seq![s[0]] + s.drop_first() =~= s);
    }
}

/// Decoded layout items are well formed, `count` many.
pub proof fn lemma_sd_layouts_items_wf(b: Seq<u8>, pos: int, count: nat)
    ensures
        (sd_layouts_items(b, pos, count) matches Some(p) ==> p.0.len() == count && forall|i: int|
            0 <= i < p.0.len() ==> layout_wf(p.0[i])),
    decreases count,
{
    if count > 0 {
        match sd_layout(b, pos) {
            Some((d, p1)) => {
                lemma_sd_layout_wf(b, pos);
                lemma_sd_layouts_items_wf(b, p1, (count - 1) as nat);
            },
            None => {},
        }
    }
}

/// A count byte followed by the layouts.
pub open spec fn enc_layouts(s: Seq<crate::abi::LayoutView>) -> Seq<u8> {
    seq![s.len() as u8] + enc_layouts_items(s)
}

/// Decoding a counted layout list at `pos`.
pub open spec fn sd_layouts(b: Seq<u8>, pos: int) -> Option<(Seq<crate::abi::LayoutView>, int)> {
    if 0 <= pos < b.len() {
        sd_layouts_items(b, pos + 1, b[pos] as nat)
    } else {
        None
    }
}

/// Round trip for counted layout lists.
pub proof fn lemma_rt_layouts(b: Seq<u8>, pos: int, s: Seq<crate::abi::LayoutView>)
    requires
        s.len() <= 255,
        forall|i: int| 0 <= i < s.len() ==> layout_wf(s[i]),
        0 <= pos,
        pos + enc_layouts(s).len() <= b.len(),
        b.subrange(pos, pos + enc_layouts(s).len()) == enc_layouts(s),
    ensures
        sd_layouts(b, pos) == Some((s, pos + enc_layouts(s).len())),
{
    lemma_subrange_split(b, pos, seq![s.len() as u8], enc_layouts_items(s));
    assert(b[pos] == s.len() as u8) by {
        assert(b.subrange(pos, pos + 1)[0] == b[pos]);
    };
    lemma_rt_layouts_items(b, pos + 1, s);
}

/// Decodes `count` layouts.
pub fn decode_layouts_items(b: &Vec<u8>, pos: usize, count: u8) -> (r: Option<(Vec<crate::abi::StructLayout>, usize)>)
    ensures
        (r matches Some(p) ==> sd_layouts_items(b@, pos as int, count as nat) == Some((
            p.0@.map_values(|d: crate::abi::StructLayout| d@),
            p.1 as int,
        ))),
        (r is None ==> sd_layouts_items(b@, pos as int, count as nat) is None),
    decreases count,
{
    if count == 0 {
        let v: Vec<crate::abi::StructLayout> = Vec::new();
        proof {
            assert(v@.map_values(|d: crate::abi::StructLayout| d@) =~= Seq::<crate::abi::LayoutView>::empty());
        }
        return Some((v, pos));
    }
    match decode_layout(b, pos) {
        None => None,
        Some((d, p1)) => match decode_layouts_items(b, p1, count - 1) {
            None => None,
            Some((mut rest, p2)) => {
                let ghost before = rest@;
                let ghost dv = d@;
                rest.insert(0, d);
                proof {
                    assert(rest@ =~= seq![rest@[0]] + before);
                    assert(rest@.map_values(|d: crate::abi::StructLayout| d@) =~= seq![dv] + before.map_values(
                        |d: crate::abi::StructLayout| d@,
                    ));
                }
                Some((rest, p2))
            },
        },
    }
}

/// Decodes a counted layout list.
pub fn decode_layouts(b: &Vec<u8>, pos: usize) -> (r: Option<(Vec<crate::abi::StructLayout>, usize)>)
    ensures
        (r matches Some(p) ==> sd_layouts(b@, pos as int) == Some((
            p.0@.map_values(|d: crate::abi::StructLayout| d@),
            p.1 as int,
        ))),
        (r is None ==> sd_layouts(b@, pos as int) is None),
{
    if pos >= b.len() {
        return None;
    }
    let count = b[pos];
    decode_layouts_items(b, pos + 1, count)
}

/// Encodes a counted layout list, appending to `out`.
pub fn encode_layouts(out: &mut Vec<u8>, s: &Vec<crate::abi::StructLayout>)
    requires
        s@.len() <= 255,
        forall|i: int| 0 <= i < s@.len() ==> layout_wf(s@[i]@),
    ensures
        final(out)@ == old(out)@ + enc_layouts(s@.map_values(|d: crate::abi::StructLayout| d@)),
{
    let ghost sv = s@.map_values(|d: crate::abi::StructLayout| d@);
    out.push(s.len() as u8);
    let mut i: usize = 0;
    while i < s.len()
        invariant
            0 <= i <= s@.len(),
            s@.len() <= 255,
            forall|k: int| 0 <= k < s@.len() ==> layout_wf(s@[k]@),
            sv == s@.map_values(|d: crate::abi::StructLayout| d@),
            sv.len() == s@.len(),
            forall|k: int| 0 <= k < s@.len() ==> sv[k] == s@[k]@,
            out@ == old(out)@ + seq![sv.len() as u8] + enc_layouts_items(sv.take(i as int)),
        decreases s@.len() - i,
    {
        encode_layout(out, &s[i]);
        proof {
            assert(sv.take(i as int).push(sv[i as int]) =~= sv.take(i as int + 1));
            lemma_enc_layouts_snoc(sv.take(i as int), sv[i as int]);
            assert(out@ =~= old(out)@ + seq![sv.len() as u8] + enc_layouts_items(
                sv.take(i as int + 1),
            ));
        }
        i = i + 1;
    }
    proof {
        assert(sv.take(sv.len() as int) =~= sv);
        assert(out@ =~= old(out)@ + enc_layouts(sv));
    }
}

} // verus!

verus! {

/// A decoded function signature is well formed.
pub proof fn lemma_sd_sig_wf(b: Seq<u8>, pos: int)
    ensures
        (sd_sig(b, pos) matches Some(p) ==> sig_wf(p.0)),
{
    match sd_name(b, pos) {
        Some((nm, p1)) => {
            if 0 <= p1 < b.len() && (b[p1] == 0 || b[p1] == 1) {
                match sd_tags(b, p1 + 1) {
                    Some((ps, p2)) => {
                        lemma_sd_tags_items_len(b, p1 + 2, b[p1 + 1] as nat);
                    },
                    None => {},
                }
            }
        },
        None => {},
    }
}

/// A decoded layout is well formed.
pub proof fn lemma_sd_layout_wf(b: Seq<u8>, pos: int)
    ensures
        (sd_layout(b, pos) matches Some(p) ==> layout_wf(p.0)),
{
    match sd_name(b, pos) {
        Some((nm, p1)) => {
            match sd_tags(b, p1) {
                Some((fs, p2)) => {
                    lemma_sd_tags_items_len(b, p1 + 1, b[p1] as nat);
                },
                None => {},
            }
        },
        None => {},
    }
}

/// Decoded tag items are `count` many.
pub proof fn lemma_sd_tags_items_len(b: Seq<u8>, pos: int, count: nat)
    ensures
        (sd_tags_items(b, pos, count) matches Some(p) ==> p.0.len() == count),
    decreases count,
{
    if count > 0 {
        match sd_tag(b, pos) {
            Some((t, p1)) => {
                lemma_sd_tags_items_len(b, p1, (count - 1) as nat);
            },
            None => {},
        }
    }
}

} // verus!

verus! {

// ------------------------------------------------------------------
// Modules
// ------------------------------------------------------------------

/// Mathematical view of a decoded module: name, dependencies, ABI.
#[verifier::ext_equal]
pub struct ModuleDefView {
    pub name: Seq<u8>,
    pub deps: Seq<(int, Seq<u8>)>,
    pub abi: crate::abi::AbiView,
}

/// A decoded module, before it is given an owning address.
#[derive(Debug)]
pub struct ModuleDef {
    pub name: Vec<u8>,
    pub deps: Vec<crate::state::ModuleId>,
    pub functions: Vec<crate::abi::FunctionSig>,
    pub structs: Vec<crate::abi::StructLayout>,
}

impl View for ModuleDef {
    type V = ModuleDefView;

    open spec fn view(&self) -> ModuleDefView {
        ModuleDefView {
            name: self.name@,
            deps: self.deps@.map_values(|d: crate::state::ModuleId| d@),
            abi: crate::abi::AbiView {
                functions: self.functions@.map_values(|f: crate::abi::FunctionSig| f@),
                structs: self.structs@.map_values(|l: crate::abi::StructLayout| l@),
            },
        }
    }
}

/// A well-formed wire module.
pub open spec fn module_wf(m: ModuleDefView) -> bool {
    &&& name_wf(m.name)
    &&& m.deps.len() <= 255
    &&& forall|i: int| 0 <= i < m.deps.len() ==> dep_wf(m.deps[i])
    &&& m.abi.functions.len() <= 255
    &&& forall|i: int| 0 <= i < m.abi.functions.len() ==> sig_wf(m.abi.functions[i])
    &&& m.abi.structs.len() <= 255
    &&& forall|i: int| 0 <= i < m.abi.structs.len() ==> layout_wf(m.abi.structs[i])
    &&& crate::abi::abi_wf(m.abi)
}

/// Encoding of one module.
pub open spec fn enc_module(m: ModuleDefView) -> Seq<u8> {
    enc_name(m.name) + enc_deps(m.deps) + enc_sigs(m.abi.functions) + enc_layouts(m.abi.structs)
}

/// Decoding one module at `pos`; a module whose function or type names
/// collide is refused.
pub open spec fn sd_module(b: Seq<u8>, pos: int) -> Option<(ModuleDefView, int)> {
    match sd_name(b, pos) {
        Some((nm, p1)) => match sd_deps(b, p1) {
            Some((ds, p2)) => match sd_sigs(b, p2) {
                Some((fs, p3)) => match sd_layouts(b, p3) {
                    Some((ls, p4)) => {
                        let abi = crate::abi::AbiView { functions: fs, structs: ls };
                        if crate::abi::abi_wf(abi) {
                            Some((ModuleDefView { name: nm, deps: ds, abi }, p4))
                        } else {
                            None
                        }
                    },
                    None => None,
                },
                None => None,
            },
            None => None,
        },
        None => None,
    }
}

/// Round trip for one module.
pub proof fn lemma_rt_module(b: Seq<u8>, pos: int, m: ModuleDefView)
    requires
        module_wf(m),
        0 <= pos,
        pos + enc_module(m).len() <= b.len(),
        b.subrange(pos, pos + enc_module(m).len()) == enc_module(m),
    ensures
        sd_module(b, pos) == Some((m, pos + enc_module(m).len())),
{
    let e1 = enc_name(m.name);
    let e2 = enc_deps(m.deps);
    let e3 = enc_sigs(m.abi.functions);
    let e4 = enc_layouts(m.abi.structs);
    assert(enc_module(m) =~= e1 + (e2 + (e3 + e4)));
    lemma_subrange_split(b, pos, e1, e2 + (e3 + e4));
    lemma_rt_name(b, pos, m.name);
    let p1 = pos + e1.len();
    assert(e2 + (e3 + e4) =~= e2 + (e3 + e4));
    lemma_subrange_split(b, p1, e2, e3 + e4);
    lemma_rt_deps(b, p1, m.deps);
    let p2 = p1 + e2.len();
    lemma_subrange_split(b, p2, e3, e4);
    lemma_rt_sigs(b, p2, m.abi.functions);
    let p3 = p2 + e3.len();
    lemma_rt_layouts(b, p3, m.abi.structs);
    match sd_module(b, pos) {
        Some((g, pend)) => {
            assert(g.abi =~= m.abi);
            assert(g =~= m);
            assert(pend == pos + enc_module(m).len());
        },
        None => {
            assert(false);
        },
    }
}

/// A decoded module is well formed.
pub proof fn lemma_sd_module_wf(b: Seq<u8>, pos: int)
    ensures
        (sd_module(b, pos) matches Some(p) ==> module_wf(p.0)),
{
    match sd_name(b, pos) {
        Some((nm, p1)) => {
            if 0 <= p1 < b.len() {
                lemma_sd_deps_items_wf(b, p1 + 1, b[p1] as nat);
            }
            match sd_deps(b, p1) {
                Some((ds, p2)) => {
                    if 0 <= p2 < b.len() {
                        lemma_sd_sigs_items_wf(b, p2 + 1, b[p2] as nat);
                    }
                    match sd_sigs(b, p2) {
                        Some((fs, p3)) => {
                            if 0 <= p3 < b.len() {
                                lemma_sd_layouts_items_wf(b, p3 + 1, b[p3] as nat);
                            }
                        },
                        None => {},
                    }
                },
                None => {},
            }
        },
        None => {},
    }
}

/// Parsing a whole byte string as one module: every byte must be consumed.
pub open spec fn parse_module(b: Seq<u8>) -> Option<ModuleDefView> {
    match sd_module(b, 0) {
        Some((m, end)) => if end == b.len() {
            Some(m)
        } else {
            None
        },
        None => None,
    }
}

/// Whether the function names of a signature table are pairwise distinct.
pub fn fn_names_unique(v: &Vec<crate::abi::FunctionSig>) -> (r: bool)
    ensures
        r == (forall|i: int, j: int| 0 <= i < j < v@.len() ==> v@[i].name@ != v@[j].name@),
{
    let mut i: usize = 0;
    while i < v.len()
        invariant
            0 <= i <= v@.len(),
            forall|a: int, b2: int| 0 <= a < b2 < v@.len() && a < i ==> v@[a].name@ != v@[b2].name@,
        decreases v@.len() - i,
    {
        let mut j: usize = i + 1;
        while j < v.len()
            invariant
                0 <= i < j <= v@.len(),
                forall|a: int, b2: int|
                    0 <= a < b2 < v@.len() && a < i ==> v@[a].name@ != v@[b2].name@,
                forall|b2: int| i < b2 < j ==> v@[i as int].name@ != v@[b2].name@,
            decreases v@.len() - j,
        {
            if crate::compat::bytes_equal(&v[i].name, &v[j].name) {
                return false;
            }
            j = j + 1;
        }
        i = i + 1;
    }
    true
}

/// Whether the type names of a layout table are pairwise distinct.
pub fn layout_names_unique(v: &Vec<crate::abi::StructLayout>) -> (r: bool)
    ensures
        r == (forall|i: int, j: int| 0 <= i < j < v@.len() ==> v@[i].name@ != v@[j].name@),
{
    let mut i: usize = 0;
    while i < v.len()
        invariant
            0 <= i <= v@.len(),
            forall|a: int, b2: int| 0 <= a < b2 < v@.len() && a < i ==> v@[a].name@ != v@[b2].name@,
        decreases v@.len() - i,
    {
        let mut j: usize = i + 1;
        while j < v.len()
            invariant
                0 <= i < j <= v@.len(),
                forall|a: int, b2: int|
                    0 <= a < b2 < v@.len() && a < i ==> v@[a].name@ != v@[b2].name@,
                forall|b2: int| i < b2 < j ==> v@[i as int].name@ != v@[b2].name@,
            decreases v@.len() - j,
        {
            if crate::compat::bytes_equal(&v[i].name, &v[j].name) {
                return false;
            }
            j = j + 1;
        }
        i = i + 1;
    }
    true
}

/// Decodes one module.
pub fn decode_module_def(b: &Vec<u8>, pos: usize) -> (r: Option<(ModuleDef, usize)>)
    ensures
        (r matches Some(p) ==> sd_module(b@, pos as int) == Some((p.0@, p.1 as int))),
        (r is None ==> sd_module(b@, pos as int) is None),
{
    match decode_name(b, pos) {
        None => None,
        Some((nm, p1)) => match decode_deps(b, p1) {
            None => None,
            Some((ds, p2)) => match decode_sigs(b, p2) {
                None => None,
                Some((fs, p3)) => match decode_layouts(b, p3) {
                    None => None,
                    Some((ls, p4)) => {
                        let fs_ok = fn_names_unique(&fs);
                        let ls_ok = layout_names_unique(&ls);
                        if fs_ok && ls_ok {
                            let def = ModuleDef { name: nm, deps: ds, functions: fs, structs: ls };
                            proof {
                                assert(crate::abi::abi_wf(def@.abi));
                            }
                            Some((def, p4))
                        } else {
                            proof {
                                let abi = crate::abi::AbiView {
                                    functions: fs@.map_values(|f: crate::abi::FunctionSig| f@),
                                    structs: ls@.map_values(|l: crate::abi::StructLayout| l@),
                                };
                                if !fs_ok {
                                    let (i, j) = choose|i: int, j: int|
                                        0 <= i < j < fs@.len() && fs@[i].name@ == fs@[j].name@;
                                    assert(abi.functions[i].name == abi.functions[j].name);
                                } else {
                                    let (i, j) = choose|i: int, j: int|
                                        0 <= i < j < ls@.len() && ls@[i].name@ == ls@[j].name@;
                                    assert(abi.structs[i].name == abi.structs[j].name);
                                }
                                assert(!crate::abi::abi_wf(abi));
                            }
                            None
                        }
                    },
                },
            },
        },
    }
}

/// Copies a byte string.
pub fn copy_bytes(b: &Vec<u8>) -> (r: Vec<u8>)
    ensures
        r@ == b@,
{
    let mut out: Vec<u8> = Vec::new();
    let mut i: usize = 0;
    while i < b.len()
        invariant
            0 <= i <= b@.len(),
            out@ == b@.take(i as int),
        decreases b@.len() - i,
    {
        out.push(b[i]);
        proof {
            assert(out@ =~= b@.take(i as int + 1));
        }
        i = i + 1;
    }
    proof {
        assert(out@ =~= b@);
    }
    out
}

/// The wire view a stored module entry decodes from.
pub open spec fn entry_def(e: crate::state::ModuleEntry) -> ModuleDefView {
    ModuleDefView {
        name: e.name@,
        deps: e.deps@.map_values(|d: crate::state::ModuleId| d@),
        abi: e.abi@,
    }
}

/// Decodes a whole byte string as the module it publishes under `addr`:
/// rejected exactly when the bytes are not one well-formed module encoding.
pub fn decode_module(bytes: &Vec<u8>, addr: crate::addr::MoveAddress) -> (r: Option<
    crate::state::ModuleEntry,
>)
    ensures
        (r matches Some(e) ==> parse_module(bytes@) == Some(entry_def(e)) && e.addr == addr
            && e.bytecode@ == bytes@ && crate::abi::abi_wf(e.abi@)),
        (r is None ==> parse_module(bytes@) is None),
{
    match decode_module_def(bytes, 0) {
        None => None,
        Some((def, end)) => {
            if end != bytes.len() {
                return None;
            }
            let bytecode = copy_bytes(bytes);
            let e = crate::state::ModuleEntry {
                addr,
                name: def.name,
                bytecode,
                abi: crate::abi::ModuleAbi { functions: def.functions, structs: def.structs },
                deps: def.deps,
            };
            proof {
                assert(entry_def(e) =~= ModuleDefView {
                    name: e.name@,
                    deps: e.deps@.map_values(|d: crate::state::ModuleId| d@),
                    abi: e.abi@,
                });
            }
            Some(e)
        },
    }
}

/// Encodes a module; the encoding parses back to the module itself.
pub fn encode_module(def: &ModuleDef) -> (r: Vec<u8>)
    requires
        module_wf(def@),
    ensures
        r@ == enc_module(def@),
        parse_module(r@) == Some(def@),
{
    let mut out: Vec<u8> = Vec::new();
    proof {
        assert forall|i: int| 0 <= i < def.deps@.len() implies name_wf(
            (#[trigger] def.deps@[i]).name@,
        ) by {
            assert(def@.deps[i] == def.deps@[i]@);
        };
        assert forall|i: int| 0 <= i < def.functions@.len() implies sig_wf(
            (#[trigger] def.functions@[i])@,
        ) by {
            assert(def@.abi.functions[i] == def.functions@[i]@);
        };
        assert forall|i: int| 0 <= i < def.structs@.len() implies layout_wf(
            (#[trigger] def.structs@[i])@,
        ) by {
            assert(def@.abi.structs[i] == def.structs@[i]@);
        };
    }
    encode_name(&mut out, &def.name);
    encode_deps(&mut out, &def.deps);
    encode_sigs(&mut out, &def.functions);
    encode_layouts(&mut out, &def.structs);
    proof {
        assert(out@ =~= enc_module(def@));
        assert(out@.subrange(0, enc_module(def@).len() as int) =~= enc_module(def@));
        lemma_rt_module(out@, 0, def@);
    }
    out
}

} // verus!

verus! {

// ------------------------------------------------------------------
// Module lists (bundles)
// ------------------------------------------------------------------

/// Concatenated module encodings, front first.
pub open spec fn enc_modules_items(s: Seq<ModuleDefView>) -> Seq<u8>
    decreases s.len(),
{
    if s.len() == 0 {
        Seq::empty()
    } else {
        enc_module(s[0]) + enc_modules_items(s.drop_first())
    }
}

/// Appending one module appends its encoding.
pub proof fn lemma_enc_modules_snoc(s: Seq<ModuleDefView>, t: ModuleDefView)
    ensures
        enc_modules_items(s.push(t)) == enc_modules_items(s) + enc_module(t),
    decreases s.len(),
{
    if s.len() == 0 {
        assert(s.push(t)[0] == t);
        assert(s.push(t).drop_first() =~= Seq::<ModuleDefView>::empty());
        reveal_with_fuel(enc_modules_items, 3);
        assert(enc_modules_items(s.push(t)) =~= enc_modules_items(s) + enc_module(t));
    } else {
        assert(s.push(t).drop_first() =~= s.drop_first().push(t));
        lemma_enc_modules_snoc(s.drop_first(), t);
        assert(enc_modules_items(s.push(t)) =~= enc_modules_items(s) + enc_module(t));
    }
}

/// Decoding `count` modules at `pos`.
pub open spec fn sd_modules_items(b: Seq<u8>, pos: int, count: nat) -> Option<
    (Seq<ModuleDefView>, int),
>
    decreases count,
{
    if count == 0 {
        Some((Seq::empty(), pos))
    } else {
        match sd_module(b, pos) {
            Some((d, p1)) => match sd_modules_items(b, p1, (count - 1) as nat) {
                Some((rest, p2)) => Some((seq![d] + rest, p2)),
                None => None,
            },
            None => None,
        }
    }
}

/// Round trip for module items.
pub proof fn lemma_rt_modules_items(b: Seq<u8>, pos: int, s: Seq<ModuleDefView>)
    requires
        forall|i: int| 0 <= i < s.len() ==> module_wf(s[i]),
        0 <= pos,
        pos + enc_modules_items(s).len() <= b.len(),
        b.subrange(pos, pos + enc_modules_items(s).len()) == enc_modules_items(s),
    ensures
        sd_modules_items(b, pos, s.len()) == Some((s, pos + enc_modules_items(s).len())),
    decreases s.len(),
{
    if s.len() == 0 {
        assert(s =~= Seq::<ModuleDefView>::empty());
    } else {
        let e1 = enc_module(s[0]);
        let e2 = enc_modules_items(s.drop_first());
        assert(enc_modules_items(s) == e1 + e2);
        lemma_subrange_split(b, pos, e1, e2);
        lemma_rt_module(b, pos, s[0]);
        lemma_rt_modules_items(b, pos + e1.len(), s.drop_first());
        assert(seq![s[0]] + s.drop_first() =~= s);
    }
}

/// Decoded module items are well formed, `count` many.
pub proof fn lemma_sd_modules_items_wf(b: Seq<u8>, pos: int, count: nat)
    ensures
        (sd_modules_items(b, pos, count) matches Some(p) ==> p.0.len() == count && forall|i: int|
            0 <= i < p.0.len() ==> module_wf(p.0[i])),
    decreases count,
{
    if count > 0 {
        match sd_module(b, pos) {
            Some((d, p1)) => {
                lemma_sd_module_wf(b, pos);
                lemma_sd_modules_items_wf(b, p1, (count - 1) as nat);
            },
            None => {},
        }
    }
}

/// Pairwise-distinct module names within a bundle.
pub open spec fn bundle_names_unique(ms: Seq<ModuleDefView>) -> bool {
    forall|i: int, j: int| 0 <= i < j < ms.len() ==> ms[i].name != ms[j].name
}

/// Encoding of a bundle: a count byte followed by the modules, in order.
pub open spec fn enc_bundle(ms: Seq<ModuleDefView>) -> Seq<u8> {
    seq![ms.len() as u8] + enc_modules_items(ms)
}

/// Parsing a whole byte string as a bundle: every byte consumed, names
/// pairwise distinct.
pub open spec fn parse_bundle(b: Seq<u8>) -> Option<Seq<ModuleDefView>> {
    if b.len() == 0 {
        None
    } else {
        match sd_modules_items(b, 1, b[0] as nat) {
            Some((ms, end)) => if end == b.len() && bundle_names_unique(ms) {
                Some(ms)
            } else {
                None
            },
            None => None,
        }
    }
}

/// Round trip for bundles.
pub proof fn lemma_rt_bundle(ms: Seq<ModuleDefView>)
    requires
        ms.len() <= 255,
        forall|i: int| 0 <= i < ms.len() ==> module_wf(ms[i]),
        bundle_names_unique(ms),
    ensures
        parse_bundle(enc_bundle(ms)) == Some(ms),
{
    let b = enc_bundle(ms);
    assert(b[0] == ms.len() as u8);
    assert(b.subrange(1, 1 + enc_modules_items(ms).len() as int) =~= enc_modules_items(ms));
    lemma_rt_modules_items(b, 1, ms);
}

/// Whether the module names of a bundle are pairwise distinct.
fn module_names_unique(v: &Vec<ModuleDef>) -> (r: bool)
    ensures
        r == (forall|i: int, j: int| 0 <= i < j < v@.len() ==> v@[i].name@ != v@[j].name@),
{
    let mut i: usize = 0;
    while i < v.len()
        invariant
            0 <= i <= v@.len(),
            forall|a: int, b2: int| 0 <= a < b2 < v@.len() && a < i ==> v@[a].name@ != v@[b2].name@,
        decreases v@.len() - i,
    {
        let mut j: usize = i + 1;
        while j < v.len()
            invariant
                0 <= i < j <= v@.len(),
                forall|a: int, b2: int|
                    0 <= a < b2 < v@.len() && a < i ==> v@[a].name@ != v@[b2].name@,
                forall|b2: int| i < b2 < j ==> v@[i as int].name@ != v@[b2].name@,
            decreases v@.len() - j,
        {
            if crate::compat::bytes_equal(&v[i].name, &v[j].name) {
                return false;
            }
            j = j + 1;
        }
        i = i + 1;
    }
    true
}

/// Decodes `count` modules.
fn decode_modules_items(b: &Vec<u8>, pos: usize, count: u8) -> (r: Option<(Vec<ModuleDef>, usize)>)
    ensures
        (r matches Some(p) ==> sd_modules_items(b@, pos as int, count as nat) == Some((
            p.0@.map_values(|d: ModuleDef| d@),
            p.1 as int,
        ))),
        (r is None ==> sd_modules_items(b@, pos as int, count as nat) is None),
    decreases count,
{
    if count == 0 {
        let v: Vec<ModuleDef> = Vec::new();
        proof {
            assert(v@.map_values(|d: ModuleDef| d@) =~= Seq::<ModuleDefView>::empty());
        }
        return Some((v, pos));
    }
    match decode_module_def(b, pos) {
        None => None,
        Some((d, p1)) => match decode_modules_items(b, p1, count - 1) {
            None => None,
            Some((mut rest, p2)) => {
                let ghost before = rest@;
                let ghost dv = d@;
                rest.insert(0, d);
                proof {
                    assert(rest@ =~= seq![rest@[0]] + before);
                    assert(rest@.map_values(|d: ModuleDef| d@) =~= seq![dv] + before.map_values(
                        |d: ModuleDef| d@,
                    ));
                }
                Some((rest, p2))
            },
        },
    }
}

/// Decodes a whole byte string as the standard-library bundle it carries:
/// one entry per module, each owned by the reserved namespace address.
pub fn decode_bundle(bytes: &Vec<u8>) -> (r: Option<Vec<crate::state::ModuleEntry>>)
    ensures
        (r matches Some(es) ==> parse_bundle(bytes@) matches Some(ms) && es@.len() == ms.len()
            && (forall|i: int|
            0 <= i < es@.len() ==> (#[trigger] es@[i]).addr.value == crate::STDLIB_ADDRESS
                && entry_def(es@[i]) == parse_bundle(bytes@)->Some_0[i] && es@[i].bytecode@
                == enc_module(parse_bundle(bytes@)->Some_0[i]) && crate::abi::abi_wf(
                es@[i].abi@,
            ))),
        (r is None ==> parse_bundle(bytes@) is None),
{
    if bytes.len() == 0 {
        return None;
    }
    let count = bytes[0];
    match decode_modules_items(bytes, 1, count) {
        None => None,
        Some((mut defs, end)) => {
            if end != bytes.len() {
                return None;
            }
            if !module_names_unique(&defs) {
                proof {
                    let ms = defs@.map_values(|d: ModuleDef| d@);
                    let (i, j) = choose|i: int, j: int|
                        0 <= i < j < defs@.len() && defs@[i].name@ == defs@[j].name@;
                    assert(ms[i].name == ms[j].name);
                    assert(!bundle_names_unique(ms));
                }
                return None;
            }
            let ghost ms = defs@.map_values(|d: ModuleDef| d@);
            proof {
                lemma_sd_modules_items_wf(bytes@, 1, count as nat);
                assert(bundle_names_unique(ms)) by {
                    assert forall|i: int, j: int| 0 <= i < j < ms.len() implies ms[i].name
                        != ms[j].name by {
                        assert(ms[i] == defs@[i]@);
                        assert(ms[j] == defs@[j]@);
                    };
                };
            }
            let mut entries: Vec<crate::state::ModuleEntry> = Vec::new();
            let mut k: usize = 0;
            while defs.len() > 0
                invariant
                    k + defs@.len() == ms.len(),
                    ms.len() <= 255,
                    0 <= k,
                    forall|i: int| 0 <= i < defs@.len() ==> (#[trigger] defs@[i])@ == ms[k + i],
                    forall|i: int| 0 <= i < ms.len() ==> module_wf(ms[i]),
                    entries@.len() == k,
                    forall|i: int|
                        0 <= i < k ==> (#[trigger] entries@[i]).addr.value
                            == crate::STDLIB_ADDRESS && entry_def(entries@[i]) == ms[i]
                            && entries@[i].bytecode@ == enc_module(ms[i]) && crate::abi::abi_wf(
                            entries@[i].abi@,
                        ),
                decreases defs@.len(),
            {
                let ghost before = defs@;
                let def = defs.remove(0);
                proof {
                    assert(def@ == ms[k as int]);
                    assert forall|i: int| 0 <= i < defs@.len() implies (#[trigger] defs@[i])@
                        == ms[k + 1 + i] by {
                        assert(defs@[i] == before[i + 1]);
                    };
                }
                let bytecode = encode_module(&def);
                let e = crate::state::ModuleEntry {
                    addr: crate::addr::MoveAddress { value: crate::STDLIB_ADDRESS },
                    name: def.name,
                    bytecode,
                    abi: crate::abi::ModuleAbi {
                        functions: def.functions,
                        structs: def.structs,
                    },
                    deps: def.deps,
                };
                proof {
                    assert(entry_def(e) =~= ms[k as int]);
                    assert(e.abi@ == ms[k as int].abi);
                }
                entries.push(e);
                k = k + 1;
            }
            Some(entries)
        },
    }
}

/// Encodes a bundle of modules; the encoding parses back to the bundle.
pub fn encode_bundle(defs: &Vec<ModuleDef>) -> (r: Vec<u8>)
    requires
        defs@.len() <= 255,
        forall|i: int| 0 <= i < defs@.len() ==> module_wf((#[trigger] defs@[i])@),
        forall|i: int, j: int| 0 <= i < j < defs@.len() ==> defs@[i]@.name != defs@[j]@.name,
    ensures
        r@ == enc_bundle(defs@.map_values(|d: ModuleDef| d@)),
        parse_bundle(r@) == Some(defs@.map_values(|d: ModuleDef| d@)),
{
    let ghost ms = defs@.map_values(|d: ModuleDef| d@);
    let mut out: Vec<u8> = Vec::new();
    out.push(defs.len() as u8);
    let mut i: usize = 0;
    while i < defs.len()
        invariant
            0 <= i <= defs@.len(),
            defs@.len() <= 255,
            forall|k: int| 0 <= k < defs@.len() ==> module_wf((#[trigger] defs@[k])@),
            ms == defs@.map_values(|d: ModuleDef| d@),
            ms.len() == defs@.len(),
            forall|k: int| 0 <= k < defs@.len() ==> ms[k] == (#[trigger] defs@[k])@,
            out@ == seq![ms.len() as u8] + enc_modules_items(ms.take(i as int)),
        decreases defs@.len() - i,
    {
        let enc = encode_module(&defs[i]);
        let mut j: usize = 0;
        while j < enc.len()
            invariant
                0 <= j <= enc@.len(),
                out@ == old_out_of(seq![ms.len() as u8] + enc_modules_items(ms.take(i as int)))
                    + enc@.take(j as int),
            decreases enc@.len() - j,
        {
            out.push(enc[j]);
            proof {
                assert(out@ =~= old_out_of(
                    seq![ms.len() as u8] + enc_modules_items(ms.take(i as int)),
                ) + enc@.take(j as int + 1));
            }
            j = j + 1;
        }
        proof {
            assert(enc@.take(enc@.len() as int) =~= enc@);
            assert(ms.take(i as int).push(ms[i as int]) =~= ms.take(i as int + 1));
            lemma_enc_modules_snoc(ms.take(i as int), ms[i as int]);
            assert(out@ =~= seq![ms.len() as u8] + enc_modules_items(ms.take(i as int + 1)));
        }
        i = i + 1;
    }
    proof {
        assert(ms.take(ms.len() as int) =~= ms);
        assert(out@ =~= enc_bundle(ms));
        assert forall|k: int, l: int| 0 <= k < l < ms.len() implies ms[k].name != ms[l].name by {
            assert(ms[k] == defs@[k]@);
            assert(ms[l] == defs@[l]@);
        };
        lemma_rt_bundle(ms);
    }
    out
}

/// Identity on byte sequences, used to freeze a prefix in a loop invariant.
pub open spec fn old_out_of(s: Seq<u8>) -> Seq<u8> {
    s
}

// ------------------------------------------------------------------
// Script transactions
// ------------------------------------------------------------------

/// Mathematical view of a script transaction: the target module, the entry
/// function, and the argument bytes the engine interprets.
#[verifier::ext_equal]
pub struct TxView {
    pub addr: int,
    pub module: Seq<u8>,
    pub function: Seq<u8>,
    pub args: Seq<u8>,
}

/// A decoded script transaction.
#[derive(Debug)]
pub struct ScriptTransaction {
    pub module_addr: crate::addr::MoveAddress,
    pub module_name: Vec<u8>,
    pub function: Vec<u8>,
    pub args: Vec<u8>,
}

impl View for ScriptTransaction {
    type V = TxView;

    open spec fn view(&self) -> TxView {
        TxView {
            addr: self.module_addr.value as int,
            module: self.module_name@,
            function: self.function@,
            args: self.args@,
        }
    }
}

/// A well-formed wire transaction.
pub open spec fn tx_wf(t: TxView) -> bool {
    0 <= t.addr < pow256(8) && name_wf(t.module) && name_wf(t.function)
}

/// Encoding of a transaction: target address, module name, function name,
/// then the raw argument bytes.
pub open spec fn enc_transaction(t: TxView) -> Seq<u8> {
    enc_le(t.addr as nat, 8) + enc_name(t.module) + enc_name(t.function) + t.args
}

/// Parsing a whole byte string as a transaction; the trailing bytes are the
/// arguments.
pub open spec fn parse_transaction(b: Seq<u8>) -> Option<TxView> {
    match sd_u64(b, 0) {
        Some((v, p1)) => match sd_name(b, p1) {
            Some((m, p2)) => match sd_name(b, p2) {
                Some((f, p3)) => Some(
                    TxView { addr: v as int, module: m, function: f, args: b.skip(p3) },
                ),
                None => None,
            },
            None => None,
        },
        None => None,
    }
}

/// Round trip for transactions.
pub proof fn lemma_rt_transaction(t: TxView)
    requires
        tx_wf(t),
    ensures
        parse_transaction(enc_transaction(t)) == Some(t),
{
    let b = enc_transaction(t);
    lemma_pow256_values();
    lemma_rt_le(t.addr as nat, 8);
    let e1 = enc_le(t.addr as nat, 8);
    let e2 = enc_name(t.module);
    let e3 = enc_name(t.function);
    assert(b =~= e1 + (e2 + (e3 + t.args)));
    assert(b.subrange(0, b.len() as int) =~= b);
    lemma_subrange_split(b, 0, e1, e2 + (e3 + t.args));
    assert((t.addr as u64) as nat == t.addr as nat);
    assert(enc_u64(t.addr as u64) == e1);
    lemma_rt_u64(b, 0, t.addr as u64);
    lemma_subrange_split(b, 8, e2, e3 + t.args);
    lemma_rt_name(b, 8, t.module);
    let p2: int = 8 + e2.len() as int;
    lemma_subrange_split(b, p2, e3, t.args);
    lemma_rt_name(b, p2, t.function);
    let p3: int = p2 + e3.len() as int;
    assert(b.skip(p3) =~= t.args) by {
        assert forall|j: int| 0 <= j < t.args.len() implies b[p3 + j] == t.args[j] by {
            assert(b.subrange(p3, p3 + t.args.len())[j] == b[p3 + j]);
        };
    };
    match parse_transaction(b) {
        Some(g) => {
            assert(g =~= t);
        },
        None => {
            assert(false);
        },
    }
}

/// Copies the bytes of `b` from `pos` to the end.
fn copy_tail(b: &Vec<u8>, pos: usize) -> (r: Vec<u8>)
    requires
        pos <= b@.len(),
    ensures
        r@ == b@.skip(pos as int),
{
    let n = b.len();
    let mut out: Vec<u8> = Vec::new();
    let mut i: usize = pos;
    while i < n
        invariant
            n == b@.len(),
            pos <= i <= b@.len(),
            out@ == b@.subrange(pos as int, i as int),
        decreases b@.len() - i,
    {
        out.push(b[i]);
        proof {
            assert(out@ =~= b@.subrange(pos as int, i as int + 1));
        }
        i = i + 1;
    }
    proof {
        assert(out@ =~= b@.skip(pos as int));
    }
    out
}

/// Decodes a whole byte string as a script transaction.
pub fn decode_transaction(bytes: &Vec<u8>) -> (r: Option<ScriptTransaction>)
    ensures
        (r matches Some(t) ==> parse_transaction(bytes@) == Some(t@)),
        (r is None ==> parse_transaction(bytes@) is None),
{
    match decode_u64(bytes, 0) {
        None => None,
        Some((v, p1)) => match decode_name(bytes, p1) {
            None => None,
            Some((m, p2)) => match decode_name(bytes, p2) {
                None => None,
                Some((f, p3)) => {
                    proof {
                        assert(p3 <= bytes@.len());
                    }
                    let args = copy_tail(bytes, p3);
                    Some(ScriptTransaction {
                        module_addr: crate::addr::MoveAddress { value: v },
                        module_name: m,
                        function: f,
                        args,
                    })
                },
            },
        },
    }
}

/// Encodes a script transaction; the encoding parses back to it.
pub fn encode_transaction(t: &ScriptTransaction) -> (r: Vec<u8>)
    requires
        name_wf(t.module_name@),
        name_wf(t.function@),
    ensures
        r@ == enc_transaction(t@),
        parse_transaction(r@) == Some(t@),
{
    let mut out: Vec<u8> = Vec::new();
    encode_u64(&mut out, t.module_addr.value);
    encode_name(&mut out, &t.module_name);
    encode_name(&mut out, &t.function);
    let mut i: usize = 0;
    let ghost prefix = out@;
    while i < t.args.len()
        invariant
            0 <= i <= t.args@.len(),
            out@ == prefix + t.args@.take(i as int),
        decreases t.args@.len() - i,
    {
        out.push(t.args[i]);
        proof {
            assert(out@ =~= prefix + t.args@.take(i as int + 1));
        }
        i = i + 1;
    }
    proof {
        assert(t.args@.take(t.args@.len() as int) =~= t.args@);
        assert(out@ =~= enc_transaction(t@));
        lemma_pow256_values();
        lemma_rt_transaction(t@);
    }
    out
}

} // verus!

verus! {

/// Whether a module value fits the wire format; for callers outside the
/// verified world, who cannot evaluate `module_wf` directly.
pub fn module_def_wf(def: &ModuleDef) -> (r: bool)
    ensures
        r == module_wf(def@),
{
    proof {
        lemma_pow256_values();
    }
    if def.name.len() < 1 || def.name.len() > 255 {
        return false;
    }
    if def.deps.len() > 255 {
        return false;
    }
    let mut i: usize = 0;
    while i < def.deps.len()
        invariant
            0 <= i <= def.deps@.len(),
            pow256(8) == 0x1_0000_0000_0000_0000,
            forall|k: int| 0 <= k < i ==> dep_wf(#[trigger] def@.deps[k]),
        decreases def.deps@.len() - i,
    {
        proof {
            assert(def@.deps[i as int] == def.deps@[i as int]@);
        }
        let d = &def.deps[i];
        if d.name.len() < 1 || d.name.len() > 255 {
            proof {
                assert(!dep_wf(def@.deps[i as int]));
            }
            return false;
        }
        proof {
            assert(dep_wf(def@.deps[i as int]));
        }
        i = i + 1;
    }
    if def.functions.len() > 255 {
        return false;
    }
    let mut i: usize = 0;
    while i < def.functions.len()
        invariant
            0 <= i <= def.functions@.len(),
            forall|k: int| 0 <= k < i ==> sig_wf(#[trigger] def@.abi.functions[k]),
        decreases def.functions@.len() - i,
    {
        proof {
            assert(def@.abi.functions[i as int] == def.functions@[i as int]@);
        }
        let f = &def.functions[i];
        if f.name.len() < 1 || f.name.len() > 255 || f.params.len() > 255 {
            proof {
                assert(!sig_wf(def@.abi.functions[i as int]));
            }
            return false;
        }
        proof {
            assert(sig_wf(def@.abi.functions[i as int]));
        }
        i = i + 1;
    }
    if def.structs.len() > 255 {
        return false;
    }
    let mut i: usize = 0;
    while i < def.structs.len()
        invariant
            0 <= i <= def.structs@.len(),
            forall|k: int| 0 <= k < i ==> layout_wf(#[trigger] def@.abi.structs[k]),
        decreases def.structs@.len() - i,
    {
        proof {
            assert(def@.abi.structs[i as int] == def.structs@[i as int]@);
        }
        let l = &def.structs[i];
        if l.name.len() < 1 || l.name.len() > 255 || l.fields.len() > 255 {
            proof {
                assert(!layout_wf(def@.abi.structs[i as int]));
            }
            return false;
        }
        proof {
            assert(layout_wf(def@.abi.structs[i as int]));
        }
        i = i + 1;
    }
    if !fn_names_unique(&def.functions) {
        proof {
            let (x, y) = choose|x: int, y: int|
                0 <= x < y < def.functions@.len() && def.functions@[x].name@
                    == def.functions@[y].name@;
            assert(def@.abi.functions[x].name == def@.abi.functions[y].name);
            assert(!crate::abi::abi_wf(def@.abi));
        }
        return false;
    }
    if !layout_names_unique(&def.structs) {
        proof {
            let (x, y) = choose|x: int, y: int|
                0 <= x < y < def.structs@.len() && def.structs@[x].name@
                    == def.structs@[y].name@;
            assert(def@.abi.structs[x].name == def@.abi.structs[y].name);
            assert(!crate::abi::abi_wf(def@.abi));
        }
        return false;
    }
    proof {
        assert(crate::abi::abi_wf(def@.abi));
        assert(module_wf(def@));
    }
    true
}

/// Encodes a module after checking that it fits the wire format: returns
/// the encoding, which parses back to the module, or nothing when the
/// module does not fit (an over-long name or list, or colliding names).
pub fn try_encode_module(def: &ModuleDef) -> (r: Option<Vec<u8>>)
    ensures
        (r matches Some(b) ==> module_wf(def@) && b@ == enc_module(def@) && parse_module(b@)
            == Some(def@)),
        (r is None ==> !module_wf(def@)),
{
    if module_def_wf(def) {
        Some(encode_module(def))
    } else {
        None
    }
}

} // verus!
