use vstd::prelude::*;
use byteorder::{ByteOrder, LittleEndian};
use vstd::arithmetic::div_mod::lemma_fundamental_div_mod_converse;

verus! {

/// Element type of one record field.
///
/// Signed and unsigned tags of one width travel as the same little-endian bit
/// pattern, and `F32` as the four bytes of its IEEE-754 encoding.
#[derive(Clone, Copy, Debug, PartialEq, Eq, Structural)]
pub enum TypeTag {
    U8,
    I8,
    U16,
    I16,
    U32,
    I32,
    F32,
}

/// Why a repack was refused.
#[derive(Clone, Copy, Debug, PartialEq, Eq, Structural)]
pub enum RepackError {
    /// The offset list and the type-code list differ in length.
    FieldMismatch,
    /// The record stride is zero.
    InvalidStride,
    /// Some field of some record reaches past the end of the buffer.
    OutOfBounds,
    /// A type code names no supported element type.
    UnsupportedType(char),
}

impl TypeTag {
    pub open spec fn width_spec(self) -> nat {
        match self {
            TypeTag::U8 | TypeTag::I8 => 1,
            TypeTag::U16 | TypeTag::I16 => 2,
            TypeTag::U32 | TypeTag::I32 | TypeTag::F32 => 4,
        }
    }

    /// Number of bytes one value of this type occupies.
    pub fn width(self) -> (r: usize)
        ensures
            r == self.width_spec(),
    {
        match self {
            TypeTag::U8 | TypeTag::I8 => 1,
            TypeTag::U16 | TypeTag::I16 => 2,
            TypeTag::U32 | TypeTag::I32 | TypeTag::F32 => 4,
        }
    }

    /// Reads a struct-module style format character:
    /// `B`, `b`, `H`, `h`, `I`, `i`, `f`.
    pub open spec fn of_code_spec(c: char) -> Option<TypeTag> {
        if c == 'B' {
            Some(TypeTag::U8)
        } else if c == 'b' {
            Some(TypeTag::I8)
        } else if c == 'H' {
            Some(TypeTag::U16)
        } else if c == 'h' {
            Some(TypeTag::I16)
        } else if c == 'I' {
            Some(TypeTag::U32)
        } else if c == 'i' {
            Some(TypeTag::I32)
        } else if c == 'f' {
            Some(TypeTag::F32)
        } else {
            None
        }
    }

    /// The type tag of a format character, if it is a supported one.
    pub fn from_code(c: char) -> (r: Option<TypeTag>)
        ensures
            r == Self::of_code_spec(c),
    {
        if c == 'B' {
            Some(TypeTag::U8)
        } else if c == 'b' {
            Some(TypeTag::I8)
        } else if c == 'H' {
            Some(TypeTag::U16)
        } else if c == 'h' {
            Some(TypeTag::I16)
        } else if c == 'I' {
            Some(TypeTag::U32)
        } else if c == 'i' {
            Some(TypeTag::I32)
        } else if c == 'f' {
            Some(TypeTag::F32)
        } else {
            None
        }
    }
}

/// Width in bytes of the field with format character `c` (zero if unsupported).
pub open spec fn code_width(c: char) -> nat {
    match TypeTag::of_code_spec(c) {
        Some(t) => t.width_spec(),
        None => 0,
    }
}

/// Every format character names a supported type.
pub open spec fn all_supported(codes: Seq<char>) -> bool {
    forall|k: int| 0 <= k < codes.len() ==> (#[trigger] TypeTag::of_code_spec(codes[k])) is Some
}

/// `j` is the position of the first unsupported format character.
pub open spec fn first_unsupported_at(codes: Seq<char>, j: int) -> bool {
    &&& 0 <= j < codes.len()
    &&& TypeTag::of_code_spec(codes[j]) is None
    &&& forall|k: int| 0 <= k < j ==> (#[trigger] TypeTag::of_code_spec(codes[k])) is Some
}

/// Number of whole records in a buffer of `len` bytes.
pub open spec fn record_count(len: nat, point_step: nat) -> nat {
    len / point_step
}

/// Bytes one output record occupies: the sum of the field widths.
pub open spec fn record_width(codes: Seq<char>) -> nat
    decreases codes.len(),
{
    if codes.len() == 0 {
        0
    } else {
        record_width(codes.drop_last()) + code_width(codes.last())
    }
}

/// Field `j` ends within its record: its offset plus its width is at most
/// the stride.
pub open spec fn field_fits(offsets: Seq<usize>, codes: Seq<char>, point_step: nat, j: int) -> bool {
    offsets[j] + code_width(codes[j]) <= point_step
}

/// Every field of every whole record lies inside its own record. With no whole
/// record there is nothing to read.
pub open spec fn all_fields_fit(
    len: nat,
    offsets: Seq<usize>,
    codes: Seq<char>,
    point_step: nat,
) -> bool {
    record_count(len, point_step) == 0 || forall|j: int|
        0 <= j < codes.len() ==> #[trigger] field_fits(offsets, codes, point_step, j)
}

/// The first `k` fields of the record starting at `base`, packed back to back.
pub open spec fn packed_fields(
    buf: Seq<u8>,
    offsets: Seq<usize>,
    codes: Seq<char>,
    base: int,
    k: int,
) -> Seq<u8>
    decreases k,
{
    if k <= 0 {
        Seq::empty()
    } else {
        let start = base + offsets[k - 1];
        packed_fields(buf, offsets, codes, base, k - 1) + buf.subrange(
            start,
            start + code_width(codes[k - 1]),
        )
    }
}

/// The first `n` records of `buf`, each re-projected to its packed fields.
pub open spec fn packed_records(
    buf: Seq<u8>,
    offsets: Seq<usize>,
    codes: Seq<char>,
    point_step: nat,
    n: int,
) -> Seq<u8>
    decreases n,
{
    if n <= 0 {
        Seq::empty()
    } else {
        packed_records(buf, offsets, codes, point_step, n - 1) + packed_fields(
            buf,
            offsets,
            codes,
            (n - 1) * point_step,
            codes.len() as int,
        )
    }
}

/// What repacking `buf` yields: the checks in order, then the dense output.
pub open spec fn repack_outcome(
    buf: Seq<u8>,
    offsets: Seq<usize>,
    codes: Seq<char>,
    point_step: nat,
) -> Result<Seq<u8>, RepackError> {
    if offsets.len() != codes.len() {
        Err(RepackError::FieldMismatch)
    } else if point_step == 0 {
        Err(RepackError::InvalidStride)
    } else if exists|j: int| first_unsupported_at(codes, j) {
        let j = choose|j: int| first_unsupported_at(codes, j);
        Err(RepackError::UnsupportedType(codes[j]))
    } else if !all_fields_fit(buf.len(), offsets, codes, point_step) {
        Err(RepackError::OutOfBounds)
    } else {
        Ok(
            packed_records(
                buf,
                offsets,
                codes,
                point_step,
                record_count(buf.len(), point_step) as int,
            ),
        )
    }
}


/// Relies on byteorder's `LittleEndian::write_u16`: it stores the two bytes of
/// `v`, least significant first, in a two-byte buffer, which is appended.
#[verifier::external_body]
fn push_u16_le(out: &mut Vec<u8>, v: u16)
    ensures
        final(out)@ == old(out)@ + seq![v as u8, (v >> 8u16) as u8],
{
    let mut b = [0u8; 2];
    LittleEndian::write_u16(&mut b, v);
    out.extend_from_slice(&b);
}

/// Relies on byteorder's `LittleEndian::write_u32`: it stores the four bytes of
/// `v`, least significant first, in a four-byte buffer, which is appended.
#[verifier::external_body]
fn push_u32_le(out: &mut Vec<u8>, v: u32)
    ensures
        final(out)@ == old(out)@ + seq![
            v as u8,
            (v >> 8u32) as u8,
            (v >> 16u32) as u8,
            (v >> 24u32) as u8,
        ],
{
    let mut b = [0u8; 4];
    LittleEndian::write_u32(&mut b, v);
    out.extend_from_slice(&b);
}

/// Two bytes joined little-endian split back into the same two bytes.
proof fn lemma_u16_bytes(b0: u8, b1: u8)
    ensures
        ({
            let v = (b0 as u16) | ((b1 as u16) << 8u16);
            v as u8 == b0 && (v >> 8u16) as u8 == b1
        }),
{
    assert(((b0 as u16) | ((b1 as u16) << 8u16)) as u8 == b0
        && (((b0 as u16) | ((b1 as u16) << 8u16)) >> 8u16) as u8 == b1) by (bit_vector);
}

/// Four bytes joined little-endian split back into the same four bytes.
proof fn lemma_u32_bytes(b0: u8, b1: u8, b2: u8, b3: u8)
    ensures
        ({
            let v = (b0 as u32) | ((b1 as u32) << 8u32) | ((b2 as u32) << 16u32) | ((b3
                as u32) << 24u32);
            v as u8 == b0 && (v >> 8u32) as u8 == b1 && (v >> 16u32) as u8 == b2 && (v
                >> 24u32) as u8 == b3
        }),
{
    assert(({
        let v = (b0 as u32) | ((b1 as u32) << 8u32) | ((b2 as u32) << 16u32) | ((b3
            as u32) << 24u32);
        v as u8 == b0 && (v >> 8u32) as u8 == b1 && (v >> 16u32) as u8 == b2 && (v
            >> 24u32) as u8 == b3
    })) by (bit_vector);
}

/// Appends the value of type `tag` stored at `pos` in `buf` to `out`, read and
/// written little-endian at the same width, so its bytes are copied unchanged.
fn copy_field(out: &mut Vec<u8>, buf: &[u8], pos: usize, tag: TypeTag)
    requires
        pos + tag.width_spec() <= buf@.len(),
    ensures
        final(out)@ == old(out)@ + buf@.subrange(pos as int, pos + tag.width_spec()),
{
    match tag {
        TypeTag::U8 | TypeTag::I8 => {
            out.push(buf[pos]);
        },
        TypeTag::U16 | TypeTag::I16 => {
            let (b0, b1) = (buf[pos], buf[pos + 1]);
            let v: u16 = (b0 as u16) | ((b1 as u16) << 8u16);
            proof {
                lemma_u16_bytes(b0, b1);
            }
            push_u16_le(out, v);
        },
        TypeTag::U32 | TypeTag::I32 | TypeTag::F32 => {
            let (b0, b1, b2, b3) = (buf[pos], buf[pos + 1], buf[pos + 2], buf[pos + 3]);
            let v: u32 = (b0 as u32) | ((b1 as u32) << 8u32) | ((b2 as u32) << 16u32) | ((b3
                as u32) << 24u32);
            proof {
                lemma_u32_bytes(b0, b1, b2, b3);
            }
            push_u32_le(out, v);
        },
    }
    assert(final(out)@ =~= old(out)@ + buf@.subrange(pos as int, pos + tag.width_spec()));
}

/// Turns format characters into type tags, refusing the first unsupported one.
pub fn parse_type_codes(codes: &[char]) -> (r: Result<Vec<TypeTag>, RepackError>)
    ensures
        match r {
            Ok(tags) => all_supported(codes@) && tags@.len() == codes@.len() && forall|k: int|
                0 <= k < codes@.len() ==> Some(#[trigger] tags@[k]) == TypeTag::of_code_spec(
                    codes@[k],
                ),
            Err(e) => exists|j: int|
                first_unsupported_at(codes@, j) && e == RepackError::UnsupportedType(codes@[j]),
        },
{
    let mut tags: Vec<TypeTag> = Vec::new();
    let mut i: usize = 0;
    while i < codes.len()
        invariant
            i <= codes@.len(),
            tags@.len() == i,
            forall|k: int| 0 <= k < i ==> Some(#[trigger] tags@[k]) == TypeTag::of_code_spec(codes@[k]),
            forall|k: int| 0 <= k < i ==> (#[trigger] TypeTag::of_code_spec(codes@[k])) is Some,
        decreases codes@.len() - i,
    {
        match TypeTag::from_code(codes[i]) {
            Some(t) => tags.push(t),
            None => {
                assert(first_unsupported_at(codes@, i as int));
                return Err(RepackError::UnsupportedType(codes[i]));
            },
        }
        i += 1;
    }
    Ok(tags)
}


/// Re-projects every whole record of `buffer` (records of `point_step` bytes,
/// trailing bytes ignored) into a dense buffer that holds, record after record,
/// each field named by `offsets` and `type_codes` at its own width, in list
/// order. The input checks come in this order: list lengths, stride, type
/// codes, then, at each field read, that the field ends within its record.
pub fn repack_record_fields(
    buffer: &[u8],
    offsets: &[usize],
    type_codes: &[char],
    point_step: usize,
) -> (r: Result<Vec<u8>, RepackError>)
    ensures
        match repack_outcome(buffer@, offsets@, type_codes@, point_step as nat) {
            Ok(bytes) => r is Ok && r->Ok_0@ == bytes,
            Err(e) => r == Err::<Vec<u8>, RepackError>(e),
        },
{
    if offsets.len() != type_codes.len() {
        return Err(RepackError::FieldMismatch);
    }
    if point_step == 0 {
        return Err(RepackError::InvalidStride);
    }
    let tags = match parse_type_codes(type_codes) {
        Ok(tags) => tags,
        Err(e) => {
            proof {
                let j = choose|j: int|
                    first_unsupported_at(type_codes@, j) && e == RepackError::UnsupportedType(
                        type_codes@[j],
                    );
                let j2 = choose|j2: int| first_unsupported_at(type_codes@, j2);
                assert(TypeTag::of_code_spec(type_codes@[j]) is None);
                assert(TypeTag::of_code_spec(type_codes@[j2]) is None);
                assert(j == j2);
            }
            return Err(e);
        },
    };
    proof {
        assert(!exists|j: int| first_unsupported_at(type_codes@, j)) by {
            if exists|j: int| first_unsupported_at(type_codes@, j) {
                let j = choose|j: int| first_unsupported_at(type_codes@, j);
                assert(TypeTag::of_code_spec(type_codes@[j]) is Some);
            }
        }
    }
    let ghost buf = buffer@;
    let ghost offs = offsets@;
    let ghost codes = type_codes@;
    let ghost ps = point_step as nat;
    let len: usize = buffer.len();
    let n: usize = len / point_step;
    let nfields: usize = tags.len();
    let mut out: Vec<u8> = Vec::new();
    let mut i: usize = 0;
    while i < n
        invariant
            buf == buffer@,
            offs == offsets@,
            codes == type_codes@,
            ps == point_step as nat,
            ps > 0,
            !exists|jj: int| first_unsupported_at(codes, jj),
            len == buf.len(),
            n == record_count(len as nat, ps),
            nfields == tags@.len() == codes.len() == offs.len(),
            i <= n,
            forall|k: int| 0 <= k < nfields ==> Some(#[trigger] tags@[k]) == TypeTag::of_code_spec(codes[k]),
            out@ == packed_records(buf, offs, codes, ps, i as int),
            i > 0 ==> forall|jj: int|
                0 <= jj < nfields ==> #[trigger] field_fits(offs, codes, ps, jj),
        decreases n - i,
    {
        assert(i * point_step + point_step <= len) by (nonlinear_arith)
            requires
                i < n,
                n == len / point_step,
                point_step > 0,
        ;
        let base: usize = i * point_step;
        let mut j: usize = 0;
        while j < nfields
            invariant
                buf == buffer@,
                offs == offsets@,
                codes == type_codes@,
                ps == point_step as nat,
                ps > 0,
                !exists|jj: int| first_unsupported_at(codes, jj),
                len == buf.len(),
                n == record_count(len as nat, ps),
                nfields == tags@.len() == codes.len() == offs.len(),
                i < n,
                base == i * ps,
                base + ps <= len,
                j <= nfields,
                forall|k: int| 0 <= k < nfields ==> Some(#[trigger] tags@[k]) == TypeTag::of_code_spec(codes[k]),
                out@ == packed_records(buf, offs, codes, ps, i as int) + packed_fields(
                    buf,
                    offs,
                    codes,
                    base as int,
                    j as int,
                ),
                forall|jj: int| 0 <= jj < j ==> #[trigger] field_fits(offs, codes, ps, jj),
            decreases nfields - j,
        {
            let off: usize = offsets[j];
            let tag = tags[j];
            let w: usize = tag.width();
            assert(TypeTag::of_code_spec(codes[j as int]) == Some(tag));
            if off > point_step || w > point_step - off {
                assert(!field_fits(offs, codes, ps, j as int));
                assert(!all_fields_fit(len as nat, offs, codes, ps));
                return Err(RepackError::OutOfBounds);
            }
            copy_field(&mut out, buffer, base + off, tag);
            proof {
                assert(packed_fields(buf, offs, codes, base as int, j + 1) == packed_fields(
                    buf,
                    offs,
                    codes,
                    base as int,
                    j as int,
                ) + buf.subrange(base + off, base + off + w));
                assert(out@ =~= packed_records(buf, offs, codes, ps, i as int) + packed_fields(
                    buf,
                    offs,
                    codes,
                    base as int,
                    j + 1,
                ));
            }
            j += 1;
        }
        assert(out@ == packed_records(buf, offs, codes, ps, i + 1));
        i += 1;
    }
    assert(all_fields_fit(len as nat, offs, codes, ps));
    Ok(out)
}


proof fn lemma_packed_fields_len(
    buf: Seq<u8>,
    offsets: Seq<usize>,
    codes: Seq<char>,
    base: int,
    k: int,
)
    requires
        0 <= base,
        0 <= k <= codes.len() <= offsets.len(),
        forall|jj: int|
            0 <= jj < k ==> base + offsets[jj] + code_width(#[trigger] codes[jj]) <= buf.len(),
    ensures
        packed_fields(buf, offsets, codes, base, k).len() == record_width(codes.subrange(0, k)),
    decreases k,
{
    if k > 0 {
        lemma_packed_fields_len(buf, offsets, codes, base, k - 1);
        assert(codes.subrange(0, k).drop_last() =~= codes.subrange(0, k - 1));
        assert(code_width(codes[k - 1]) >= 0);
    }
}

proof fn lemma_packed_records_len(
    buf: Seq<u8>,
    offsets: Seq<usize>,
    codes: Seq<char>,
    point_step: nat,
    n: int,
)
    requires
        0 <= n <= record_count(buf.len(), point_step),
        point_step > 0,
        codes.len() == offsets.len(),
        all_fields_fit(buf.len(), offsets, codes, point_step),
    ensures
        packed_records(buf, offsets, codes, point_step, n).len() == n * record_width(codes),
    decreases n,
{
    if n > 0 {
        lemma_packed_records_len(buf, offsets, codes, point_step, n - 1);
        assert((n - 1) * point_step >= 0 && (n - 1) * point_step + point_step <= buf.len())
            by (nonlinear_arith)
            requires
                n >= 1,
                n <= buf.len() / point_step,
                point_step > 0,
        ;
        assert forall|jj: int| 0 <= jj < codes.len() implies (n - 1) * point_step + offsets[jj]
            + code_width(#[trigger] codes[jj]) <= buf.len() by {
            assert(field_fits(offsets, codes, point_step, jj));
        }
        lemma_packed_fields_len(
            buf,
            offsets,
            codes,
            (n - 1) * point_step,
            codes.len() as int,
        );
        assert(codes.subrange(0, codes.len() as int) =~= codes);
        assert((n - 1) * record_width(codes) + record_width(codes) == n * record_width(codes))
            by (nonlinear_arith);
        assert(packed_records(buf, offsets, codes, point_step, n).len() == packed_records(
            buf,
            offsets,
            codes,
            point_step,
            n - 1,
        ).len() + record_width(codes));
    } else {
        assert(n * record_width(codes) == 0) by (nonlinear_arith)
            requires
                n == 0,
        ;
    }
}

/// A successful repack holds one packed record, `record_width(codes)` bytes,
/// for each whole record of the input.
pub proof fn lemma_output_length(
    buf: Seq<u8>,
    offsets: Seq<usize>,
    codes: Seq<char>,
    point_step: nat,
)
    ensures
        repack_outcome(buf, offsets, codes, point_step) is Ok ==> repack_outcome(
            buf,
            offsets,
            codes,
            point_step,
        )->Ok_0.len() == record_count(buf.len(), point_step) * record_width(codes),
{
    if repack_outcome(buf, offsets, codes, point_step) is Ok {
        lemma_packed_records_len(
            buf,
            offsets,
            codes,
            point_step,
            record_count(buf.len(), point_step) as int,
        );
    }
}

/// A buffer of three strides plus fewer trailing bytes than one stride yields
/// exactly three packed records on success: trailing bytes are dropped.
pub proof fn lemma_three_records(
    buf: Seq<u8>,
    offsets: Seq<usize>,
    codes: Seq<char>,
    point_step: nat,
    trailing: nat,
)
    requires
        point_step > 0,
        trailing < point_step,
        buf.len() == 3 * point_step + trailing,
    ensures
        record_count(buf.len(), point_step) == 3,
        repack_outcome(buf, offsets, codes, point_step) is Ok ==> repack_outcome(
            buf,
            offsets,
            codes,
            point_step,
        )->Ok_0.len() == 3 * record_width(codes),
{
    lemma_fundamental_div_mod_converse(
        buf.len() as int,
        point_step as int,
        3,
        trailing as int,
    );
    lemma_output_length(buf, offsets, codes, point_step);
}

/// Offset and type-code lists of different lengths are refused, whatever the
/// buffer and stride.
pub proof fn lemma_mismatch_refused(
    buf: Seq<u8>,
    offsets: Seq<usize>,
    codes: Seq<char>,
    point_step: nat,
)
    requires
        offsets.len() != codes.len(),
    ensures
        repack_outcome(buf, offsets, codes, point_step) == Err::<Seq<u8>, RepackError>(
            RepackError::FieldMismatch,
        ),
{
}

/// A zero stride is refused once the two lists agree in length.
pub proof fn lemma_zero_stride_refused(buf: Seq<u8>, offsets: Seq<usize>, codes: Seq<char>)
    requires
        offsets.len() == codes.len(),
    ensures
        repack_outcome(buf, offsets, codes, 0) == Err::<Seq<u8>, RepackError>(
            RepackError::InvalidStride,
        ),
{
}

/// An unsupported type code among supported ones is refused, and the error
/// names it.
pub proof fn lemma_unsupported_refused(
    buf: Seq<u8>,
    offsets: Seq<usize>,
    codes: Seq<char>,
    point_step: nat,
    j: int,
)
    requires
        offsets.len() == codes.len(),
        point_step > 0,
        0 <= j < codes.len(),
        TypeTag::of_code_spec(codes[j]) is None,
        forall|k: int|
            0 <= k < codes.len() && k != j ==> (#[trigger] TypeTag::of_code_spec(codes[k])) is Some,
    ensures
        repack_outcome(buf, offsets, codes, point_step) == Err::<Seq<u8>, RepackError>(
            RepackError::UnsupportedType(codes[j]),
        ),
{
    assert(first_unsupported_at(codes, j));
    let j2 = choose|j2: int| first_unsupported_at(codes, j2);
    assert(TypeTag::of_code_spec(codes[j2]) is None);
    assert(j2 == j);
}

/// Once the buffer holds a whole record, a field whose offset plus width
/// passes the stride is refused as out of bounds, whatever follows it.
pub proof fn lemma_field_past_stride_refused(
    buf: Seq<u8>,
    offsets: Seq<usize>,
    codes: Seq<char>,
    point_step: nat,
    j: int,
)
    requires
        offsets.len() == codes.len(),
        point_step > 0,
        all_supported(codes),
        buf.len() >= point_step,
        0 <= j < codes.len(),
        offsets[j] + code_width(codes[j]) > point_step,
    ensures
        repack_outcome(buf, offsets, codes, point_step) == Err::<Seq<u8>, RepackError>(
            RepackError::OutOfBounds,
        ),
{
    assert(!exists|jj: int| first_unsupported_at(codes, jj)) by {
        if exists|jj: int| first_unsupported_at(codes, jj) {
            let jj = choose|jj: int| first_unsupported_at(codes, jj);
            assert(TypeTag::of_code_spec(codes[jj]) is Some);
        }
    }
    assert(buf.len() / point_step >= 1) by (nonlinear_arith)
        requires
            buf.len() >= point_step,
            point_step > 0,
    ;
    assert(!field_fits(offsets, codes, point_step, j));
}

proof fn lemma_packed_fields_prefix(
    buf: Seq<u8>,
    cut: int,
    offsets: Seq<usize>,
    codes: Seq<char>,
    base: int,
    k: int,
)
    requires
        0 <= base,
        0 <= cut <= buf.len(),
        0 <= k <= codes.len() <= offsets.len(),
        forall|jj: int|
            0 <= jj < k ==> base + offsets[jj] + code_width(#[trigger] codes[jj]) <= cut,
    ensures
        packed_fields(buf, offsets, codes, base, k) == packed_fields(
            buf.subrange(0, cut),
            offsets,
            codes,
            base,
            k,
        ),
    decreases k,
{
    if k > 0 {
        lemma_packed_fields_prefix(buf, cut, offsets, codes, base, k - 1);
        let start = base + offsets[k - 1];
        assert(buf.subrange(0, cut).subrange(start, start + code_width(codes[k - 1]))
            =~= buf.subrange(start, start + code_width(codes[k - 1])));
    }
}

proof fn lemma_packed_records_prefix(
    buf: Seq<u8>,
    offsets: Seq<usize>,
    codes: Seq<char>,
    point_step: nat,
    n: int,
    m: int,
)
    requires
        point_step > 0,
        0 <= m <= n,
        n * point_step <= buf.len(),
        codes.len() == offsets.len(),
        forall|j: int| 0 <= j < codes.len() ==> #[trigger] field_fits(offsets, codes, point_step, j),
    ensures
        packed_records(buf, offsets, codes, point_step, m) == packed_records(
            buf.subrange(0, n * point_step),
            offsets,
            codes,
            point_step,
            m,
        ),
    decreases m,
{
    if m > 0 {
        lemma_packed_records_prefix(buf, offsets, codes, point_step, n, m - 1);
        assert(0 <= (m - 1) * point_step && (m - 1) * point_step + point_step <= n * point_step)
            by (nonlinear_arith)
            requires
                1 <= m <= n,
                point_step > 0,
        ;
        assert forall|jj: int| 0 <= jj < codes.len() implies (m - 1) * point_step + offsets[jj]
            + code_width(#[trigger] codes[jj]) <= n * point_step by {
            assert(field_fits(offsets, codes, point_step, jj));
        }
        lemma_packed_fields_prefix(
            buf,
            n * point_step,
            offsets,
            codes,
            (m - 1) * point_step,
            codes.len() as int,
        );
    }
}

/// Trailing bytes after the last whole record are dropped: repacking gives the
/// same outcome as repacking the buffer cut to its whole records.
pub proof fn lemma_trailing_bytes_dropped(
    buf: Seq<u8>,
    offsets: Seq<usize>,
    codes: Seq<char>,
    point_step: nat,
)
    requires
        point_step > 0,
    ensures
        repack_outcome(buf, offsets, codes, point_step) == repack_outcome(
            buf.subrange(0, (record_count(buf.len(), point_step) * point_step) as int),
            offsets,
            codes,
            point_step,
        ),
{
    let n = record_count(buf.len(), point_step);
    let cut: int = (n * point_step) as int;
    assert(0 <= cut <= buf.len()) by (nonlinear_arith)
        requires
            n == buf.len() / point_step,
            cut == n * point_step,
            point_step > 0,
    ;
    let tb = buf.subrange(0, cut);
    lemma_fundamental_div_mod_converse(cut, point_step as int, n as int, 0);
    assert(record_count(tb.len(), point_step) == n);
    if offsets.len() == codes.len() && all_fields_fit(buf.len(), offsets, codes, point_step)
        && n > 0 {
        lemma_packed_records_prefix(buf, offsets, codes, point_step, n as int, n as int);
    }
}

} // verus!
