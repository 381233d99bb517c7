//! The 512-byte ustar header block: field layout, checksum, encoding of a
//! valid entry and decoding of an arbitrary block, with the round-trip
//! and checksum-detection proofs.

use vstd::prelude::*;
use crate::entry::{
    Entry, EntryModel, EntryType, EntryTypeModel, entry_error, has_nul, is_normalized,
    lemma_accepted_entry_valid, lemma_first_split_char, lemma_path_parts, link_target,
    name_part, path_fits, prefix_part, spec_normalize, split_index, valid_model,
};
use crate::errors::{EncodingError, HeaderError};
use crate::octal::{
    all_pad, is_octal_digit, lemma_octal_digits_len, lemma_parse_octal_bound,
    lemma_parse_octal_field, lemma_parse_octal_padded, octal_digits, octal_field,
    parse_octal_field, pow8, spec_parse_octal, write_octal_field,
};

verus! {

/// A sequence of `n` NUL bytes.
pub open spec fn zeros(n: nat) -> Seq<u8> {
    Seq::new(n, |i: int| 0u8)
}

/// `s` padded with NUL bytes to width `w`.
pub open spec fn zero_pad(s: Seq<u8>, w: nat) -> Seq<u8>
    recommends
        s.len() <= w,
{
    s + zeros((w - s.len()) as nat)
}

/// The sum of the bytes of `s`.
pub open spec fn sum_bytes(s: Seq<u8>) -> int
    decreases s.len(),
{
    if s.len() == 0 {
        0
    } else {
        sum_bytes(s.drop_last()) + s.last()
    }
}

pub proof fn lemma_sum_bytes_bounds(s: Seq<u8>)
    ensures
        0 <= sum_bytes(s) <= 255 * s.len(),
    decreases s.len(),
{
    if s.len() > 0 {
        lemma_sum_bytes_bounds(s.drop_last());
    }
}

/// Changing one byte changes the sum by exactly the byte's difference.
pub proof fn lemma_sum_bytes_update(s: Seq<u8>, i: int, v: u8)
    requires
        0 <= i < s.len(),
    ensures
        sum_bytes(s.update(i, v)) == sum_bytes(s) - s[i] + v,
    decreases s.len(),
{
    let t = s.update(i, v);
    if i == s.len() - 1 {
        assert(t.drop_last() =~= s.drop_last());
        assert(t.last() == v);
    } else {
        assert(t.drop_last() =~= s.drop_last().update(i, v));
        lemma_sum_bytes_update(s.drop_last(), i, v);
        assert(t.last() == s.last());
    }
}

/// 256 to the power `k`.
pub open spec fn p256(k: nat) -> int
    decreases k,
{
    if k == 0 {
        1
    } else {
        256 * p256((k - 1) as nat)
    }
}

pub proof fn lemma_p256_pos(k: nat)
    ensures
        p256(k) >= 1,
    decreases k,
{
    if k > 0 {
        lemma_p256_pos((k - 1) as nat);
    }
}

/// Eight base-256 bytes hold exactly the `u64` range.
pub proof fn lemma_p256_8()
    ensures
        p256(8) == 0x10000000000000000,
{
    reveal_with_fuel(p256, 9);
}

/// The value of `s` read as a big-endian base-256 number.
pub open spec fn be_value(s: Seq<u8>) -> int
    decreases s.len(),
{
    if s.len() == 0 {
        0
    } else {
        be_value(s.drop_last()) * 256 + s.last()
    }
}

/// The `n` base-256 bytes of `v`, most significant first.
pub open spec fn be_bytes(v: int, n: nat) -> Seq<u8>
    decreases n,
{
    if n == 0 {
        Seq::empty()
    } else {
        be_bytes(v / 256, (n - 1) as nat).push((v % 256) as u8)
    }
}

pub proof fn lemma_be_bytes_len(v: int, n: nat)
    ensures
        be_bytes(v, n).len() == n,
    decreases n,
{
    if n > 0 {
        lemma_be_bytes_len(v / 256, (n - 1) as nat);
    }
}

/// Reading back the base-256 bytes of `v` yields `v`.
pub proof fn lemma_be_value_of_bytes(v: int, n: nat)
    requires
        0 <= v < p256(n),
    ensures
        be_value(be_bytes(v, n)) == v,
    decreases n,
{
    if n == 0 {
    } else {
        let m = (n - 1) as nat;
        lemma_p256_pos(m);
        assert(v / 256 < p256(m)) by (nonlinear_arith)
            requires
                v >= 0,
                p256(m) >= 1,
                v < 256 * p256(m),
        ;
        lemma_be_value_of_bytes(v / 256, m);
        lemma_be_bytes_len(v / 256, m);
        let b = be_bytes(v, n);
        lemma_be_bytes_len(v, n);
        assert(b.drop_last() =~= be_bytes(v / 256, m));
        assert(b.last() == (v % 256) as u8);
    }
}

/// Length of the NUL-terminated prefix of `s` (the whole of `s` when it
/// holds no NUL).
pub open spec fn cstr_len(s: Seq<u8>) -> nat
    decreases s.len(),
{
    if s.len() == 0 {
        0
    } else if s[0] == 0 {
        0
    } else {
        (1 + cstr_len(s.drop_first())) as nat
    }
}

/// The string stored in a NUL-padded field.
pub open spec fn cstr(s: Seq<u8>) -> Seq<u8> {
    s.take(cstr_len(s) as int)
}

/// `cstr_len` is the unique boundary between a NUL-free prefix and a NUL
/// (or the field's end).
pub proof fn lemma_cstr_char(s: Seq<u8>, n: nat)
    requires
        n <= s.len(),
        forall|k: int| 0 <= k < n ==> s[k] != 0,
        n == s.len() || s[n as int] == 0,
    ensures
        cstr_len(s) == n,
    decreases s.len(),
{
    if n == 0 {
    } else {
        let t = s.drop_first();
        assert forall|k: int| 0 <= k < n - 1 implies t[k] != 0 by {
            assert(t[k] == s[k + 1]);
        }
        if n < s.len() {
            assert(t[n - 1] == s[n as int]);
        }
        lemma_cstr_char(t, (n - 1) as nat);
    }
}

/// A NUL-free string survives a round trip through a padded field.
pub proof fn lemma_cstr_of_zero_pad(p: Seq<u8>, w: nat)
    requires
        !has_nul(p),
        p.len() <= w,
    ensures
        cstr(zero_pad(p, w)) == p,
{
    let f = zero_pad(p, w);
    assert(f.len() == w);
    assert forall|k: int| 0 <= k < p.len() implies f[k] != 0 by {
        assert(f[k] == p[k]);
    }
    if p.len() < w {
        assert(f[p.len() as int] == zeros((w - p.len()) as nat)[0]);
    }
    lemma_cstr_char(f, p.len());
    assert(f.take(p.len() as int) =~= p);
}

/// The typeflag byte of an entry kind: '0' file, '5' directory,
/// '2' symlink; unmodeled kinds are written as regular files.
pub open spec fn typeflag_byte(t: EntryTypeModel) -> u8 {
    match t {
        EntryTypeModel::Directory => 53,
        EntryTypeModel::Symlink(_) => 50,
        _ => 48,
    }
}

/// The size field: eleven octal digits and a NUL when the size fits,
/// otherwise the GNU base-256 form (high bit set on the first byte).
pub open spec fn size_field(size: u64) -> Seq<u8> {
    if (size as int) < pow8(11) {
        octal_field(size as int, 12)
    } else {
        seq![128u8, 0u8, 0u8, 0u8] + be_bytes(size as int, 8)
    }
}

/// Byte `i` of the header of `e` before the checksum is filled in; the
/// checksum field reads as spaces, which is exactly how the checksum is
/// computed.
pub open spec fn pre_byte(e: EntryModel, i: int) -> u8 {
    if 0 <= i < 100 {
        zero_pad(name_part(e.path), 100)[i]
    } else if 100 <= i < 108 {
        octal_field(e.mode as int, 8)[i - 100]
    } else if 108 <= i < 116 {
        octal_field(0, 8)[i - 108]
    } else if 116 <= i < 124 {
        octal_field(0, 8)[i - 116]
    } else if 124 <= i < 136 {
        size_field(e.size)[i - 124]
    } else if 136 <= i < 148 {
        octal_field(e.mtime as int, 12)[i - 136]
    } else if 148 <= i < 156 {
        32u8
    } else if i == 156 {
        typeflag_byte(e.entry_type)
    } else if 157 <= i < 257 {
        zero_pad(link_target(e.entry_type), 100)[i - 157]
    } else if 257 <= i < 263 {
        seq![117u8, 115u8, 116u8, 97u8, 114u8, 0u8][i - 257]
    } else if 263 <= i < 265 {
        48u8
    } else if 345 <= i < 500 {
        zero_pad(prefix_part(e.path), 155)[i - 345]
    } else {
        0u8
    }
}

/// The header block of `e` with the checksum field still holding spaces.
pub open spec fn header_pre(e: EntryModel) -> Seq<u8> {
    Seq::new(512, |i: int| pre_byte(e, i))
}

/// The header checksum: the sum of all 512 header bytes with the
/// checksum field itself read as spaces.
pub open spec fn header_checksum(e: EntryModel) -> int {
    sum_bytes(header_pre(e))
}

/// The stored form of the checksum: six octal digits, NUL, space.
pub open spec fn checksum_field(v: int) -> Seq<u8> {
    octal_digits(v, 6) + seq![0u8, 32u8]
}

/// The complete 512-byte header block of a valid, normalized entry.
pub open spec fn spec_encode_header(e: EntryModel) -> Seq<u8> {
    Seq::new(
        512,
        |i: int|
            if 148 <= i < 156 {
                checksum_field(header_checksum(e))[i - 148]
            } else {
                pre_byte(e, i)
            },
    )
}

/// A block with its checksum field replaced by spaces: what the checksum
/// is computed over on decode.
pub open spec fn csum_input(b: Seq<u8>) -> Seq<u8>
    recommends
        b.len() == 512,
{
    Seq::new(
        512,
        |i: int|
            if 148 <= i < 156 {
                32u8
            } else {
                b[i]
            },
    )
}

/// The checksum a decoder computes for block `b`.
pub open spec fn header_sum(b: Seq<u8>) -> int {
    sum_bytes(csum_input(b))
}

/// The size field accepts octal, or base-256 when the first byte has the
/// high bit set; base-256 values beyond `u64` are rejected.
pub open spec fn spec_parse_size(s: Seq<u8>) -> Option<int>
    recommends
        s.len() == 12,
{
    if s.len() == 12 && s[0] >= 128 {
        if s[0] == 128 && s[1] == 0 && s[2] == 0 && s[3] == 0 {
            Some(be_value(s.skip(4)))
        } else {
            None
        }
    } else {
        spec_parse_octal(s)
    }
}

/// The path stored in a block: the name field, prefixed (with a '/'
/// separator) by the prefix field when that is nonempty.
pub open spec fn decoded_path(b: Seq<u8>) -> Seq<u8> {
    let name = cstr(b.subrange(0, 100));
    let prefix = cstr(b.subrange(345, 500));
    if prefix.len() == 0 {
        name
    } else {
        prefix + seq![47u8] + name
    }
}

/// The kind stored in a block; an unknown typeflag falls back to a
/// regular file, the tar convention for forward compatibility.
pub open spec fn decoded_type(b: Seq<u8>) -> EntryTypeModel {
    if b[156] == 53 {
        EntryTypeModel::Directory
    } else if b[156] == 50 {
        EntryTypeModel::Symlink(cstr(b.subrange(157, 257)))
    } else {
        EntryTypeModel::RegularFile
    }
}

/// What decoding block `b` yields: the checksum is verified before any
/// other field is trusted, then the numeric fields must parse.
pub open spec fn spec_decode_header(b: Seq<u8>) -> Result<EntryModel, HeaderError>
    recommends
        b.len() == 512,
{
    match spec_parse_octal(b.subrange(148, 156)) {
        None => Err(HeaderError::ChecksumMismatch),
        Some(stored) => if stored != header_sum(b) {
            Err(HeaderError::ChecksumMismatch)
        } else {
            match (
                spec_parse_octal(b.subrange(100, 108)),
                spec_parse_size(b.subrange(124, 136)),
                spec_parse_octal(b.subrange(136, 148)),
            ) {
                (Some(mode), Some(size), Some(mtime)) => Ok(
                    EntryModel {
                        path: decoded_path(b),
                        size: size as u64,
                        mode: mode as u32,
                        mtime: mtime as u64,
                        entry_type: decoded_type(b),
                    },
                ),
                _ => Err(HeaderError::MalformedNumericField),
            }
        },
    }
}

/// Writes `data` into `block[off .. off + data.len()]`.
fn write_bytes_at(block: &mut Vec<u8>, off: usize, data: &Vec<u8>)
    requires
        off + data.len() <= old(block).len(),
    ensures
        final(block).len() == old(block).len(),
        forall|k: int|
            off <= k < off + data.len() ==> #[trigger] final(block)@[k] == data@[k - off],
        forall|k: int|
            0 <= k < old(block).len() && !(off <= k < off + data.len()) ==> final(block)@[k]
                == old(block)@[k],
{
    let mut i: usize = 0;
    while i < data.len()
        invariant
            i <= data.len(),
            off + data.len() <= block.len(),
            block.len() == old(block).len(),
            forall|k: int| off <= k < off + i ==> #[trigger] block@[k] == data@[k - off],
            forall|k: int|
                0 <= k < old(block).len() && !(off <= k < off + data.len()) ==> block@[k] == old(
                    block,
                )@[k],
        decreases data.len() - i,
    {
        block[off + i] = data[i];
        i = i + 1;
    }
}

/// Writes the base-256 size form: `0x80`, three NULs, eight big-endian bytes.
fn write_size_base256(block: &mut Vec<u8>, size: u64)
    requires
        old(block).len() == 512,
        (size as int) >= pow8(11),
    ensures
        final(block).len() == 512,
        forall|k: int| 124 <= k < 136 ==> #[trigger] final(block)@[k] == size_field(size)[k - 124],
        forall|k: int| 0 <= k < 512 && !(124 <= k < 136) ==> final(block)@[k] == old(block)@[k],
{
    proof {
        lemma_p256_8();
        lemma_be_bytes_len(size as int, 8);
    }
    block[124] = 128u8;
    block[125] = 0u8;
    block[126] = 0u8;
    block[127] = 0u8;
    let mut x: u64 = size;
    let mut j: usize = 8;
    proof {
        assert(size as int / p256(0) == size as int);
    }
    while j > 0
        invariant
            j <= 8,
            block.len() == 512,
            x as int == size as int / p256((8 - j) as nat),
            block@[124] == 128u8,
            block@[125] == 0u8,
            block@[126] == 0u8,
            block@[127] == 0u8,
            forall|k: int|
                128 + j <= k < 136 ==> #[trigger] block@[k] == (size as int / p256(
                    (135 - k) as nat,
                ) % 256) as u8,
            forall|k: int| 0 <= k < 512 && !(124 <= k < 136) ==> block@[k] == old(block)@[k],
        decreases j,
    {
        j = j - 1;
        let d: u8 = (x % 256) as u8;
        block[128 + j] = d;
        proof {
            let e = (7 - j) as nat;
            lemma_p256_pos(e);
            vstd::arithmetic::div_mod::lemma_div_denominator(size as int, p256(e), 256);
            assert(p256(e) * 256 == 256 * p256(e));
            assert(256 * p256(e) == p256((e + 1) as nat));
        }
        x = x / 256;
    }
    proof {
        assert forall|k: int| 124 <= k < 136 implies #[trigger] block@[k] == size_field(size)[k
            - 124] by {
            let f = size_field(size);
            let bb = be_bytes(size as int, 8);
            assert(f == seq![128u8, 0u8, 0u8, 0u8] + bb);
            lemma_be_bytes_len(size as int, 8);
            if k >= 128 {
                let k0 = k - 128;
                assert(block@[k] == (size as int / p256((135 - k) as nat) % 256) as u8);
                lemma_be_bytes_index(size as int, 8, k0);
                assert(f[k - 124] == bb[k0]);
            } else {
                assert(f[k - 124] == seq![128u8, 0u8, 0u8, 0u8][k - 124]);
            }
        }
    }
}

/// The size field of any `u64` parses back to that value.
pub proof fn lemma_parse_size_field(size: u64)
    ensures
        size_field(size).len() == 12,
        spec_parse_size(size_field(size)) == Some(size as int),
{
    let f = size_field(size);
    if (size as int) < pow8(11) {
        lemma_octal_digits_len(size as int, 11);
        crate::octal::lemma_octal_digits_are_digits(size as int, 11);
        assert(f[0] == octal_digits(size as int, 11)[0]);
        assert(is_octal_digit(f[0]));
        lemma_parse_octal_field(size as int, 12);
    } else {
        lemma_be_bytes_len(size as int, 8);
        assert(f[0] == 128u8);
        assert(f[1] == 0u8);
        assert(f[2] == 0u8);
        assert(f[3] == 0u8);
        assert(f.skip(4) =~= be_bytes(size as int, 8));
        lemma_p256_8();
        lemma_be_value_of_bytes(size as int, 8);
    }
}

/// Round trip of one header: decoding the encoding of a valid,
/// normalized entry of a modeled kind yields the entry again.
pub proof fn lemma_header_round_trip(e: EntryModel)
    requires
        valid_model(e),
        is_normalized(e),
        !(e.entry_type is Other),
    ensures
        spec_decode_header(spec_encode_header(e)) == Ok::<EntryModel, HeaderError>(e),
{
    let h = spec_encode_header(e);
    let pre = header_pre(e);
    let sum = header_checksum(e);
    lemma_sum_bytes_bounds(pre);
    reveal_with_fuel(pow8, 13);
    assert(0 <= sum < pow8(6));
    lemma_octal_digits_len(sum, 6);
    let cf = checksum_field(sum);
    assert(h.subrange(148, 156) =~= cf) by {
        assert forall|k: int| 0 <= k < 8 implies h.subrange(148, 156)[k] == cf[k] by {
            assert(h.subrange(148, 156)[k] == h[148 + k]);
        }
    }
    assert(all_pad(seq![0u8, 32u8])) by {
        assert(seq![0u8, 32u8][0] == 0u8);
        assert(seq![0u8, 32u8][1] == 32u8);
    }
    lemma_parse_octal_padded(sum, 6, seq![0u8, 32u8]);
    assert(spec_parse_octal(h.subrange(148, 156)) == Some(sum));
    assert(csum_input(h) =~= pre) by {
        assert forall|k: int| 0 <= k < 512 implies csum_input(h)[k] == pre[k] by {
            if !(148 <= k < 156) {
                assert(csum_input(h)[k] == h[k]);
                assert(h[k] == pre_byte(e, k));
            }
        }
    }
    assert(header_sum(h) == sum);
    lemma_octal_digits_len(e.mode as int, 7);
    lemma_octal_digits_len(e.mtime as int, 11);
    assert(h.subrange(100, 108) =~= octal_field(e.mode as int, 8)) by {
        lemma_octal_digits_len(e.mode as int, 7);
        assert forall|k: int| 0 <= k < 8 implies h.subrange(100, 108)[k] == octal_field(
            e.mode as int,
            8,
        )[k] by {
            assert(h.subrange(100, 108)[k] == h[100 + k]);
        }
    }
    lemma_parse_octal_field(e.mode as int, 8);
    assert(h.subrange(124, 136) =~= size_field(e.size)) by {
        lemma_parse_size_field(e.size);
        assert forall|k: int| 0 <= k < 12 implies h.subrange(124, 136)[k] == size_field(
            e.size,
        )[k] by {
            assert(h.subrange(124, 136)[k] == h[124 + k]);
        }
    }
    lemma_parse_size_field(e.size);
    assert(h.subrange(136, 148) =~= octal_field(e.mtime as int, 12)) by {
        lemma_octal_digits_len(e.mtime as int, 11);
        assert forall|k: int| 0 <= k < 12 implies h.subrange(136, 148)[k] == octal_field(
            e.mtime as int,
            12,
        )[k] by {
            assert(h.subrange(136, 148)[k] == h[136 + k]);
        }
    }
    lemma_parse_octal_field(e.mtime as int, 12);
    lemma_path_parts(e.path);
    let np = name_part(e.path);
    let pp = prefix_part(e.path);
    assert(h.subrange(0, 100) =~= zero_pad(np, 100)) by {
        assert forall|k: int| 0 <= k < 100 implies h.subrange(0, 100)[k] == zero_pad(
            np,
            100,
        )[k] by {
            assert(h.subrange(0, 100)[k] == h[k]);
        }
    }
    lemma_cstr_of_zero_pad(np, 100);
    assert(h.subrange(345, 500) =~= zero_pad(pp, 155)) by {
        assert forall|k: int| 0 <= k < 155 implies h.subrange(345, 500)[k] == zero_pad(
            pp,
            155,
        )[k] by {
            assert(h.subrange(345, 500)[k] == h[345 + k]);
        }
    }
    lemma_cstr_of_zero_pad(pp, 155);
    if e.path.len() <= 100 {
        assert(pp.len() == 0);
        assert(decoded_path(h) == e.path);
    } else {
        assert(pp.len() >= 1);
        assert(decoded_path(h) == e.path);
    }
    assert(h[156] == typeflag_byte(e.entry_type));
    match e.entry_type {
        EntryTypeModel::Symlink(t) => {
            assert(h.subrange(157, 257) =~= zero_pad(t, 100)) by {
                assert forall|k: int| 0 <= k < 100 implies h.subrange(157, 257)[k] == zero_pad(
                    t,
                    100,
                )[k] by {
                    assert(h.subrange(157, 257)[k] == h[157 + k]);
                }
            }
            lemma_cstr_of_zero_pad(t, 100);
            assert(decoded_type(h) == e.entry_type);
        },
        _ => {
            assert(decoded_type(h) == e.entry_type);
        },
    }
    let d = EntryModel {
        path: decoded_path(h),
        size: ((e.size as int) as u64),
        mode: ((e.mode as int) as u32),
        mtime: ((e.mtime as int) as u64),
        entry_type: decoded_type(h),
    };
    assert(d =~= e);
    assert(spec_decode_header(h) == Ok::<EntryModel, HeaderError>(e));
}

/// Flipping any single byte of a decodable header block outside the
/// checksum field makes decoding fail with a checksum mismatch.
pub proof fn lemma_checksum_flip_detected(b: Seq<u8>, i: int, v: u8)
    requires
        b.len() == 512,
        0 <= i < 512,
        !(148 <= i < 156),
        v != b[i],
        spec_decode_header(b) is Ok,
    ensures
        spec_decode_header(b.update(i, v)) == Err::<EntryModel, HeaderError>(
            HeaderError::ChecksumMismatch,
        ),
{
    let b2 = b.update(i, v);
    assert(b2.subrange(148, 156) =~= b.subrange(148, 156)) by {
        assert forall|k: int| 0 <= k < 8 implies b2.subrange(148, 156)[k] == b.subrange(
            148,
            156,
        )[k] by {
            assert(b2.subrange(148, 156)[k] == b2[148 + k]);
            assert(b.subrange(148, 156)[k] == b[148 + k]);
        }
    }
    let stored = spec_parse_octal(b.subrange(148, 156));
    assert(stored == Some(header_sum(b)));
    assert(csum_input(b2) =~= csum_input(b).update(i, v)) by {
        assert forall|k: int| 0 <= k < 512 implies csum_input(b2)[k] == csum_input(b).update(
            i,
            v,
        )[k] by {}
    }
    lemma_sum_bytes_update(csum_input(b), i, v);
    assert(csum_input(b)[i] == b[i]);
    assert(header_sum(b2) == header_sum(b) - b[i] + v);
    assert(header_sum(b2) != header_sum(b));
}

/// Scans `v` for a NUL byte.
fn contains_nul(v: &Vec<u8>) -> (r: bool)
    ensures
        r == has_nul(v@),
{
    let mut i: usize = 0;
    while i < v.len()
        invariant
            i <= v.len(),
            forall|k: int| 0 <= k < i ==> v@[k] != 0,
        decreases v.len() - i,
    {
        if v[i] == 0 {
            proof {
                assert(v@[i as int] == 0);
            }
            return true;
        }
        i = i + 1;
    }
    false
}

/// Encodes a header block for `e`, after validating it and normalizing a
/// directory path to end with '/'. Fails exactly when `entry_error` says,
/// with that error.
#[verifier::rlimit(100)]
pub fn encode_header(e: &Entry) -> (r: Result<Vec<u8>, EncodingError>)
    ensures
        match r {
            Ok(b) => entry_error(e@) is None && b@ == spec_encode_header(spec_normalize(e@)),
            Err(er) => entry_error(e@) == Some(er),
        },
{
    let is_dir = match &e.entry_type {
        EntryType::Directory => true,
        _ => false,
    };
    let zero_needed = match &e.entry_type {
        EntryType::Directory => true,
        EntryType::Symlink(_) => true,
        _ => false,
    };
    let target_bad = match &e.entry_type {
        EntryType::Symlink(t) => contains_nul(t),
        _ => false,
    };
    if e.path.len() == 0 || contains_nul(&e.path) || (zero_needed && e.size != 0) || target_bad {
        return Err(EncodingError::InvalidEntry);
    }
    let ghost m = spec_normalize(e@);
    let mut path: Vec<u8> = Vec::new();
    let mut i: usize = 0;
    while i < e.path.len()
        invariant
            i <= e.path.len(),
            path@ =~= e.path@.take(i as int),
        decreases e.path.len() - i,
    {
        path.push(e.path[i]);
        i = i + 1;
    }
    proof {
        assert(path@ =~= e.path@);
    }
    if is_dir && path[path.len() - 1] != 47 {
        path.push(47);
    }
    proof {
        assert(path@ == m.path);
    }
    let name: Vec<u8>;
    let mut prefix: Vec<u8> = Vec::new();
    if path.len() <= 100 {
        name = path;
    } else {
        let n = path.len();
        let mut sp: usize = 1;
        while sp < n && !(path[sp] == 47 && n - sp - 1 <= 100)
            invariant
                1 <= sp <= n,
                n == path@.len(),
                path@ == m.path,
                forall|k: int| 1 <= k < sp ==> !(path@[k] == 47 && n - k - 1 <= 100),
            decreases n - sp,
        {
            sp = sp + 1;
        }
        proof {
            lemma_first_split_char(path@, 1, sp as int);
            assert(split_index(m.path) == sp as int);
        }
        if sp == n || sp > 155 {
            proof {
                assert(!path_fits(m.path));
            }
            return Err(EncodingError::PathTooLong);
        }
        let mut nm: Vec<u8> = Vec::new();
        let mut j2: usize = sp + 1;
        while j2 < n
            invariant
                sp + 1 <= j2 <= n,
                n == path@.len(),
                path@ == m.path,
                nm@ =~= path@.subrange(sp as int + 1, j2 as int),
            decreases n - j2,
        {
            nm.push(path[j2]);
            j2 = j2 + 1;
        }
        let mut pf: Vec<u8> = Vec::new();
        let mut k2: usize = 0;
        while k2 < sp
            invariant
                k2 <= sp < n,
                n == path@.len(),
                path@ == m.path,
                pf@ =~= path@.subrange(0, k2 as int),
            decreases sp - k2,
        {
            pf.push(path[k2]);
            k2 = k2 + 1;
        }
        proof {
            assert(nm@ =~= name_part(m.path));
            assert(pf@ =~= prefix_part(m.path));
        }
        name = nm;
        prefix = pf;
    }
    proof {
        assert(name@ == name_part(m.path));
        assert(prefix@ == prefix_part(m.path));
        assert(path_fits(m.path));
    }
    match &e.entry_type {
        EntryType::Symlink(t) => if t.len() > 100 {
            return Err(EncodingError::LinkTargetTooLong);
        },
        _ => {},
    }
    proof {
        reveal_with_fuel(pow8, 12);
    }
    if e.mode >= 2097152 || e.mtime >= 8589934592u64 {
        return Err(EncodingError::FieldTooLarge);
    }
    proof {
        assert(entry_error(e@) is None);
        lemma_accepted_entry_valid(e@);
    }
    proof {
        lemma_path_parts(m.path);
    }
    let mut block: Vec<u8> = vec![0u8; 512];
    write_bytes_at(&mut block, 0, &name);
    write_bytes_at(&mut block, 345, &prefix);
    write_octal_field(&mut block, 100, e.mode as u64, 8);
    write_octal_field(&mut block, 108, 0, 8);
    write_octal_field(&mut block, 116, 0, 8);
    if e.size < 8589934592u64 {
        write_octal_field(&mut block, 124, e.size, 12);
        proof {
            assert(size_field(m.size) == octal_field(m.size as int, 12));
            assert(forall|k: int|
                0 <= k < 12 ==> #[trigger] block@[124 + k] == size_field(m.size)[k]);
        }
    } else {
        write_size_base256(&mut block, e.size);
        proof {
            assert(forall|k: int|
                0 <= k < 12 ==> #[trigger] block@[124 + k] == size_field(m.size)[k]);
        }
    }
    write_octal_field(&mut block, 136, e.mtime, 12);
    let spaces: Vec<u8> = vec![32u8; 8];
    write_bytes_at(&mut block, 148, &spaces);
    let tf: u8 = match &e.entry_type {
        EntryType::Directory => 53,
        EntryType::Symlink(_) => 50,
        _ => 48,
    };
    block[156] = tf;
    match &e.entry_type {
        EntryType::Symlink(t) => {
            write_bytes_at(&mut block, 157, t);
        },
        _ => {},
    }
    block[257] = 117;
    block[258] = 115;
    block[259] = 116;
    block[260] = 97;
    block[261] = 114;
    block[262] = 0;
    block[263] = 48;
    block[264] = 48;
    proof {
        assert forall|j: int| 0 <= j < 512 implies block@[j] == header_pre(m)[j] by {
            assert(header_pre(m)[j] == pre_byte(m, j));
            if j < 100 {
                let np = name_part(m.path);
                if j < np.len() {
                    assert(zero_pad(np, 100)[j] == np[j]);
                } else {
                    assert(zero_pad(np, 100)[j] == zeros((100 - np.len()) as nat)[j - np.len()]);
                }
            } else if 345 <= j < 500 {
                let pp = prefix_part(m.path);
                if j - 345 < pp.len() {
                    assert(zero_pad(pp, 155)[j - 345] == pp[j - 345]);
                } else {
                    assert(zero_pad(pp, 155)[j - 345] == zeros((155 - pp.len()) as nat)[j - 345
                        - pp.len()]);
                }
            } else if 157 <= j < 257 {
                let t = link_target(m.entry_type);
                if j - 157 < t.len() {
                    assert(zero_pad(t, 100)[j - 157] == t[j - 157]);
                } else {
                    assert(zero_pad(t, 100)[j - 157] == zeros((100 - t.len()) as nat)[j - 157
                        - t.len()]);
                }
            }
        }
        assert(block@ =~= header_pre(m));
    }
    let mut acc: u64 = 0;
    let mut i2: usize = 0;
    while i2 < 512
        invariant
            i2 <= 512,
            block.len() == 512,
            acc as int == sum_bytes(block@.take(i2 as int)),
            acc <= 255 * i2,
        decreases 512 - i2,
    {
        proof {
            assert(block@.take(i2 as int + 1).drop_last() =~= block@.take(i2 as int));
            assert(block@.take(i2 as int + 1).last() == block@[i2 as int]);
        }
        acc = acc + block[i2] as u64;
        i2 = i2 + 1;
    }
    proof {
        assert(block@.take(512) =~= block@);
        assert(acc as int == header_checksum(m));
        reveal_with_fuel(pow8, 7);
        assert((acc as int) < pow8(6));
    }
    let ghost pre = block@;
    write_octal_field(&mut block, 148, acc, 7);
    block[155] = 32;
    proof {
        let enc = spec_encode_header(m);
        let cf = checksum_field(header_checksum(m));
        lemma_octal_digits_len(header_checksum(m), 6);
        assert forall|j: int| 0 <= j < 512 implies block@[j] == enc[j] by {
            if 148 <= j < 155 {
                assert(block@[148 + (j - 148)] == octal_field(header_checksum(m), 7)[j - 148]);
                if j < 154 {
                    assert(octal_field(header_checksum(m), 7)[j - 148] == octal_digits(
                        header_checksum(m),
                        6,
                    )[j - 148]);
                    assert(cf[j - 148] == octal_digits(header_checksum(m), 6)[j - 148]);
                } else {
                    assert(octal_field(header_checksum(m), 7)[j - 148] == 0u8);
                    assert(cf[6] == 0u8);
                }
            } else if j == 155 {
                assert(cf[7] == 32u8);
            } else {
                assert(block@[j] == pre[j]);
                assert(pre[j] == pre_byte(m, j));
            }
        }
        assert(block@ =~= enc);
    }
    Ok(block)
}

/// Reads the NUL-terminated (or full-width) string in
/// `block[off .. off + w]`.
fn read_cstr(block: &Vec<u8>, off: usize, w: usize) -> (r: Vec<u8>)
    requires
        off + w <= block.len(),
    ensures
        r@ == cstr(block@.subrange(off as int, (off + w) as int)),
{
    let ghost f = block@.subrange(off as int, (off + w) as int);
    let mut n: usize = 0;
    while n < w && block[off + n] != 0
        invariant
            n <= w,
            off + w <= block.len(),
            f == block@.subrange(off as int, (off + w) as int),
            forall|k: int| 0 <= k < n ==> f[k] != 0,
        decreases w - n,
    {
        proof {
            assert(f[n as int] == block@[off + n]);
        }
        n = n + 1;
    }
    proof {
        if n < w {
            assert(f[n as int] == block@[off + n]);
        }
        lemma_cstr_char(f, n as nat);
    }
    let mut out: Vec<u8> = Vec::new();
    let mut i: usize = 0;
    while i < n
        invariant
            i <= n <= w,
            off + w <= block.len(),
            f == block@.subrange(off as int, (off + w) as int),
            out@.len() == i,
            forall|k: int| 0 <= k < i ==> out@[k] == f[k],
        decreases n - i,
    {
        out.push(block[off + i]);
        proof {
            assert(f[i as int] == block@[off + i]);
        }
        i = i + 1;
    }
    proof {
        assert(out@ =~= f.take(n as int));
    }
    out
}

/// Reads the size field, accepting octal and the base-256 extension.
fn parse_size_field(block: &Vec<u8>) -> (r: Option<u64>)
    requires
        block.len() == 512,
    ensures
        match r {
            Some(v) => spec_parse_size(block@.subrange(124, 136)) == Some(v as int),
            None => spec_parse_size(block@.subrange(124, 136)) is None,
        },
{
    let ghost f = block@.subrange(124, 136);
    if block[124] >= 128 {
        proof {
            assert(f[0] == block@[124]);
            assert(f[1] == block@[125]);
            assert(f[2] == block@[126]);
            assert(f[3] == block@[127]);
        }
        if block[124] == 128 && block[125] == 0 && block[126] == 0 && block[127] == 0 {
            let ghost t = f.skip(4);
            let mut val: u64 = 0;
            let mut i: usize = 0;
            proof {
                lemma_p256_8();
                assert(t.take(0) =~= Seq::<u8>::empty());
            }
            while i < 8
                invariant
                    i <= 8,
                    block.len() == 512,
                    t == block@.subrange(124, 136).skip(4),
                    val as int == be_value(t.take(i as int)),
                    (val as int) < p256(i as nat),
                    p256(8) == 0x10000000000000000,
                decreases 8 - i,
            {
                let b = block[128 + i];
                proof {
                    assert(t[i as int] == block@.subrange(124, 136)[4 + i]);
                    assert(block@.subrange(124, 136)[4 + i] == block@[128 + i]);
                    assert(t.take(i as int + 1).drop_last() =~= t.take(i as int));
                    assert(t.take(i as int + 1).last() == t[i as int]);
                    lemma_p256_pos(i as nat);
                    assert(256 * p256(i as nat) == p256((i + 1) as nat));
                    assert((val as int) * 256 + 255 < p256((i + 1) as nat)) by (nonlinear_arith)
                        requires
                            (val as int) < p256(i as nat),
                            256 * p256(i as nat) == p256((i + 1) as nat),
                    ;
                    lemma_p256_increases((i + 1) as nat, 8);
                }
                val = val * 256 + b as u64;
                i = i + 1;
            }
            proof {
                assert(t.take(8) =~= t);
            }
            Some(val)
        } else {
            None
        }
    } else {
        proof {
            assert(f[0] == block@[124]);
        }
        parse_octal_field(block, 124, 12)
    }
}

pub proof fn lemma_p256_increases(j: nat, k: nat)
    requires
        j <= k,
    ensures
        p256(j) <= p256(k),
    decreases k,
{
    if j < k {
        lemma_p256_increases(j, (k - 1) as nat);
        lemma_p256_pos((k - 1) as nat);
    }
}

/// Decodes a 512-byte header block: the checksum is verified first, then
/// the numeric fields; the result is exactly `spec_decode_header`.
pub fn decode_header(block: &Vec<u8>) -> (r: Result<Entry, HeaderError>)
    requires
        block.len() == 512,
    ensures
        match r {
            Ok(en) => spec_decode_header(block@) == Ok::<EntryModel, HeaderError>(en@),
            Err(er) => spec_decode_header(block@) == Err::<EntryModel, HeaderError>(er),
        },
{
    let stored = match parse_octal_field(block, 148, 8) {
        Some(v) => v,
        None => {
            return Err(HeaderError::ChecksumMismatch);
        },
    };
    let mut acc: u64 = 0;
    let mut i: usize = 0;
    while i < 512
        invariant
            i <= 512,
            block.len() == 512,
            acc as int == sum_bytes(csum_input(block@).take(i as int)),
            acc <= 255 * i,
        decreases 512 - i,
    {
        let b: u8 = if 148 <= i && i < 156 {
            32
        } else {
            block[i]
        };
        proof {
            let c = csum_input(block@);
            assert(c.take(i as int + 1).drop_last() =~= c.take(i as int));
            assert(c.take(i as int + 1).last() == c[i as int]);
            assert(c[i as int] == b);
        }
        acc = acc + b as u64;
        i = i + 1;
    }
    proof {
        assert(csum_input(block@).take(512) =~= csum_input(block@));
    }
    if stored != acc {
        return Err(HeaderError::ChecksumMismatch);
    }
    let mode = match parse_octal_field(block, 100, 8) {
        Some(v) => v,
        None => {
            return Err(HeaderError::MalformedNumericField);
        },
    };
    let size = match parse_size_field(block) {
        Some(v) => v,
        None => {
            return Err(HeaderError::MalformedNumericField);
        },
    };
    let mtime = match parse_octal_field(block, 136, 12) {
        Some(v) => v,
        None => {
            return Err(HeaderError::MalformedNumericField);
        },
    };
    proof {
        lemma_parse_octal_bound(block@.subrange(100, 108), mode as int);
        reveal_with_fuel(pow8, 9);
    }
    let name = read_cstr(block, 0, 100);
    let prefix = read_cstr(block, 345, 155);
    let path: Vec<u8>;
    if prefix.len() == 0 {
        path = name;
    } else {
        let mut p = prefix;
        p.push(47);
        let mut nm = name;
        p.append(&mut nm);
        proof {
            assert(p@ =~= cstr(block@.subrange(345, 500)) + seq![47u8] + cstr(
                block@.subrange(0, 100),
            ));
        }
        path = p;
    }
    let tf = block[156];
    let et: EntryType;
    if tf == 53 {
        et = EntryType::Directory;
    } else if tf == 50 {
        et = EntryType::Symlink(read_cstr(block, 157, 100));
    } else {
        et = EntryType::RegularFile;
    }
    let en = Entry { path, size, mode: mode as u32, mtime, entry_type: et };
    proof {
        assert(en@ =~= EntryModel {
            path: decoded_path(block@),
            size: ((size as int) as u64),
            mode: ((mode as int) as u32),
            mtime: ((mtime as int) as u64),
            entry_type: decoded_type(block@),
        });
    }
    Ok(en)
}

/// Each byte of a base-256 encoding: position `j` holds
/// `(v / 256^(n-1-j)) % 256`.
pub proof fn lemma_be_bytes_index(v: int, n: nat, j: int)
    requires
        v >= 0,
        0 <= j < n,
    ensures
        be_bytes(v, n).len() == n,
        be_bytes(v, n)[j] == (v / p256((n - 1 - j) as nat) % 256) as u8,
    decreases n,
{
    lemma_be_bytes_len(v, n);
    if j == n - 1 {
        assert(p256(0) == 1);
        assert(v / 1 == v);
    } else {
        lemma_be_bytes_index(v / 256, (n - 1) as nat, j);
        lemma_be_bytes_len(v / 256, (n - 1) as nat);
        let e = (n - 2 - j) as nat;
        lemma_p256_pos(e);
        vstd::arithmetic::div_mod::lemma_div_denominator(v, 256, p256(e));
        assert(256 * p256(e) == p256((e + 1) as nat));
    }
}

} // verus!
