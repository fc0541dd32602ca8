//! Fixed-width byte encoding of typed attribute values and whole rows.
//! Integers are big-endian; texts are padded with NUL bytes to their
//! declared width and trimmed again on decoding.

use vstd::prelude::*;
use vstd::bytes::{spec_u32_to_le_bytes, spec_u32_from_le_bytes, lemma_auto_spec_u32_to_from_le_bytes, u32_to_le_bytes, u32_from_le_bytes};
use vstd::utf8::{encode_utf8, decode_utf8, valid_utf8};
use crate::datatype::DataType;
use crate::numtext::{spec_parse_i32, parse_i32, int_text, i32_to_string, lemma_int_text_round_trip};
use crate::table::{Row, spec_field};
use crate::diskinterface::TableMeta;
use crate::strutil::{string_from_utf8, lemma_views_equal_iff_bytes_equal};
use crate::field::Field;

verus! {

#[derive(Debug, Clone)]
pub struct BytesCoder {}

#[derive(Debug, Clone, Copy, PartialEq, Eq, Structural)]
pub enum BytesCoderError {
    Io,
    ParseInt,
    ParseFloat,
    StringLength,
    StringDecode,
    AttrNotExists,
}

/// A 32-bit integer as four big-endian bytes.
pub open spec fn spec_be32(u: u32) -> Seq<u8> {
    spec_u32_to_le_bytes(u).reverse()
}

pub open spec fn spec_from_be32(b: Seq<u8>) -> u32 {
    spec_u32_from_le_bytes(b.reverse())
}

pub open spec fn zero_bytes(k: nat) -> Seq<u8> {
    Seq::new(k, |i: int| 0u8)
}

/// What encoding one value yields: a failure, or exactly the bytes.
pub open spec fn spec_attr_to_bytes(dt: DataType, s: Seq<char>) -> Result<Seq<u8>, BytesCoderError> {
    match dt {
        DataType::Char(n) => {
            if encode_utf8(s).len() > n as nat {
                Err(BytesCoderError::StringLength)
            } else {
                Ok(encode_utf8(s) + zero_bytes((n as nat - encode_utf8(s).len()) as nat))
            }
        },
        DataType::Varchar(n) => {
            if encode_utf8(s).len() > n as nat {
                Err(BytesCoderError::StringLength)
            } else {
                Ok(encode_utf8(s) + zero_bytes((n as nat - encode_utf8(s).len()) as nat))
            }
        },
        DataType::Int => {
            match spec_parse_i32(s) {
                Some(v) => Ok(spec_be32(v as u32)),
                None => Err(BytesCoderError::ParseInt),
            }
        },
        DataType::Float => Err(BytesCoderError::ParseFloat),
        DataType::Double => Err(BytesCoderError::ParseFloat),
    }
}

/// NUL bytes stripped from the front.
pub open spec fn trimz_front(b: Seq<u8>) -> Seq<u8>
    decreases b.len(),
{
    if b.len() > 0 && b[0] == 0 {
        trimz_front(b.skip(1))
    } else {
        b
    }
}

/// NUL bytes stripped from the back.
pub open spec fn trimz_back(b: Seq<u8>) -> Seq<u8>
    decreases b.len(),
{
    if b.len() > 0 && b.last() == 0 {
        trimz_back(b.drop_last())
    } else {
        b
    }
}

pub open spec fn trimz(b: Seq<u8>) -> Seq<u8> {
    trimz_front(trimz_back(b))
}

/// What decoding one value yields.
pub open spec fn spec_bytes_to_attr(dt: DataType, b: Seq<u8>) -> Result<Seq<char>, BytesCoderError> {
    match dt {
        DataType::Char(_) => {
            if valid_utf8(trimz(b)) {
                Ok(decode_utf8(trimz(b)))
            } else {
                Err(BytesCoderError::StringDecode)
            }
        },
        DataType::Varchar(_) => {
            if valid_utf8(trimz(b)) {
                Ok(decode_utf8(trimz(b)))
            } else {
                Err(BytesCoderError::StringDecode)
            }
        },
        DataType::Int => {
            if b.len() >= 4 {
                Ok(int_text(spec_from_be32(b.take(4)) as i32 as int))
            } else {
                Err(BytesCoderError::Io)
            }
        },
        DataType::Float => Err(BytesCoderError::ParseFloat),
        DataType::Double => Err(BytesCoderError::ParseFloat),
    }
}

proof fn lemma_trimz_front_at(b: Seq<u8>, lo: int)
    requires
        0 <= lo <= b.len(),
        forall|j: int| 0 <= j < lo ==> b[j] == 0,
        lo < b.len() ==> b[lo] != 0,
    ensures
        trimz_front(b) == b.skip(lo),
    decreases b.len(),
{
    if b.len() > 0 && b[0] == 0 {
        assert(lo > 0);
        lemma_trimz_front_at(b.skip(1), lo - 1);
        assert(b.skip(1).skip(lo - 1) =~= b.skip(lo));
    } else {
        assert(lo == 0);
        assert(b.skip(0) =~= b);
    }
}

proof fn lemma_trimz_back_at(b: Seq<u8>, hi: int)
    requires
        0 <= hi <= b.len(),
        forall|j: int| hi <= j < b.len() ==> b[j] == 0,
        hi > 0 ==> b[hi - 1] != 0,
    ensures
        trimz_back(b) == b.take(hi),
    decreases b.len(),
{
    if b.len() > 0 && b.last() == 0 {
        assert(hi < b.len());
        lemma_trimz_back_at(b.drop_last(), hi);
        assert(b.drop_last().take(hi) =~= b.take(hi));
    } else {
        assert(hi == b.len());
        assert(b.take(hi) =~= b);
    }
}

impl BytesCoder {
    /// Encodes one attribute value to its fixed-width bytes.
    #[verifier::loop_isolation(false)]
    pub fn attr_to_bytes(datatype: &DataType, str_val: &str) -> (r: Result<
        Vec<u8>,
        BytesCoderError,
    >)
        ensures
            (match spec_attr_to_bytes(*datatype, str_val@) {
                Ok(b) => r is Ok && r->Ok_0@ == b,
                Err(e) => r is Err && r->Err_0 == e,
            }),
    {
        match datatype {
            DataType::Char(n) | DataType::Varchar(n) => {
                let width = *n as usize;
                let mut bs = vstd::string::StrSliceExecFns::as_bytes_vec(str_val);
                if bs.len() > width {
                    return Err(BytesCoderError::StringLength);
                }
                let ghost enc = encode_utf8(str_val@);
                let mut k = bs.len();
                while k < width
                    invariant
                        enc.len() <= width,
                        enc.len() <= k <= width,
                        bs@ =~= enc + zero_bytes((k - enc.len()) as nat),
                    decreases width - k,
                {
                    bs.push(0);
                    proof {
                        assert(bs@ =~= enc + zero_bytes((k + 1 - enc.len()) as nat));
                    }
                    k += 1;
                }
                Ok(bs)
            },
            DataType::Int => {
                let v = match parse_i32(str_val) {
                    Some(v) => v,
                    None => {
                        return Err(BytesCoderError::ParseInt);
                    },
                };
                let le = u32_to_le_bytes(v as u32);
                let mut bs: Vec<u8> = Vec::new();
                bs.push(le[3]);
                bs.push(le[2]);
                bs.push(le[1]);
                bs.push(le[0]);
                proof {
                    assert(bs@ =~= spec_u32_to_le_bytes(v as u32).reverse());
                }
                Ok(bs)
            },
            DataType::Float | DataType::Double => Err(BytesCoderError::ParseFloat),
        }
    }

    /// Decodes one attribute's bytes back to its value text.
    #[verifier::loop_isolation(false)]
    pub fn bytes_to_attr(datatype: &DataType, bytes: &Vec<u8>) -> (r: Result<
        String,
        BytesCoderError,
    >)
        ensures
            (match spec_bytes_to_attr(*datatype, bytes@) {
                Ok(s) => r is Ok && r->Ok_0@ == s,
                Err(e) => r is Err && r->Err_0 == e,
            }),
    {
        match datatype {
            DataType::Char(_) | DataType::Varchar(_) => {
                let n = bytes.len();
                let mut hi: usize = n;
                while hi > 0 && bytes[hi - 1] == 0
                    invariant
                        hi <= n,
                        forall|j: int| hi <= j < n ==> bytes@[j] == 0,
                    decreases hi,
                {
                    hi -= 1;
                }
                let mut lo: usize = 0;
                while lo < hi && bytes[lo] == 0
                    invariant
                        lo <= hi,
                        forall|j: int| 0 <= j < lo ==> bytes@[j] == 0,
                    decreases hi - lo,
                {
                    lo += 1;
                }
                let mut mid: Vec<u8> = Vec::new();
                let mut i: usize = lo;
                while i < hi
                    invariant
                        lo <= i <= hi <= n,
                        n == bytes@.len(),
                        mid@ =~= bytes@.subrange(lo as int, i as int),
                    decreases hi - i,
                {
                    mid.push(bytes[i]);
                    proof {
                        assert(mid@ =~= bytes@.subrange(lo as int, i + 1));
                    }
                    i += 1;
                }
                proof {
                    lemma_trimz_back_at(bytes@, hi as int);
                    lemma_trimz_front_at(bytes@.take(hi as int), lo as int);
                    assert(bytes@.take(hi as int).skip(lo as int) =~= bytes@.subrange(
                        lo as int,
                        hi as int,
                    ));
                    assert(mid@ == trimz(bytes@));
                }
                match string_from_utf8(mid) {
                    Some(s) => {
                        proof {
                            vstd::utf8::decode_utf8_encode_utf8(trimz(bytes@));
                            vstd::utf8::encode_utf8_decode_utf8(s@);
                            lemma_views_equal_iff_bytes_equal(s@, decode_utf8(trimz(bytes@)));
                        }
                        Ok(s)
                    },
                    None => Err(BytesCoderError::StringDecode),
                }
            },
            DataType::Int => {
                if bytes.len() < 4 {
                    return Err(BytesCoderError::Io);
                }
                let mut le: Vec<u8> = Vec::new();
                le.push(bytes[3]);
                le.push(bytes[2]);
                le.push(bytes[1]);
                le.push(bytes[0]);
                proof {
                    assert(le@ =~= bytes@.take(4).reverse());
                }
                let u = u32_from_le_bytes(le.as_slice());
                let v = u as i32;
                Ok(i32_to_string(v))
            },
            DataType::Float | DataType::Double => Err(BytesCoderError::ParseFloat),
        }
    }
}

/// Encoding then decoding an integer or text value gives it back in
/// canonical form: integers re-rendered in plain decimal, texts with
/// any leading and trailing NUL characters removed.
pub open spec fn canonical_value(dt: DataType, s: Seq<char>) -> bool {
    match dt {
        DataType::Int => spec_parse_i32(s) is Some && int_text(
            spec_parse_i32(s)->Some_0 as int,
        ) == s,
        DataType::Char(n) => encode_utf8(s).len() <= n as nat && (s.len() > 0 ==> s[0] != '\0'
            && s.last() != '\0'),
        DataType::Varchar(n) => encode_utf8(s).len() <= n as nat && (s.len() > 0 ==> s[0] != '\0'
            && s.last() != '\0'),
        DataType::Float => false,
        DataType::Double => false,
    }
}

/// Round trip of one attribute value: decoding what was encoded gives
/// the canonical form of the value back.
pub proof fn lemma_attr_round_trip(dt: DataType, s: Seq<char>)
    requires
        canonical_value(dt, s),
    ensures
        spec_attr_to_bytes(dt, s) is Ok,
        spec_bytes_to_attr(dt, spec_attr_to_bytes(dt, s)->Ok_0) == (Ok::<Seq<char>,
        BytesCoderError>(s)),
{
    match dt {
        DataType::Int => {
            let v = spec_parse_i32(s)->Some_0;
            lemma_auto_spec_u32_to_from_le_bytes();
            let b = spec_be32(v as u32);
            assert(b.reverse() =~= spec_u32_to_le_bytes(v as u32));
            assert(b.len() == 4);
            assert(b.take(4) =~= b);
            assert(spec_from_be32(b) == v as u32);
            assert(v as u32 as i32 == v) by (bit_vector);
        },
        DataType::Char(n) | DataType::Varchar(n) => {
            let enc = encode_utf8(s);
            let b = enc + zero_bytes((n as nat - enc.len()) as nat);
            // the encoded text holds no NUL bytes at its edges
            vstd::utf8::encode_utf8_valid_utf8(s);
            vstd::utf8::encode_utf8_decode_utf8(s);
            if s.len() == 0 {
                assert(enc.len() == 0);
                lemma_trimz_back_at(b, 0);
                assert(b.take(0) =~= Seq::<u8>::empty());
                lemma_trimz_front_at(Seq::<u8>::empty(), 0);
                assert(trimz(b) =~= enc);
            } else {
                lemma_edge_bytes(s);
                lemma_trimz_back_at(b, enc.len() as int);
                assert(b.take(enc.len() as int) =~= enc);
                lemma_trimz_front_at(enc, 0);
                assert(enc.skip(0) =~= enc);
                assert(trimz(b) == enc);
            }
            assert(valid_utf8(trimz(b)));
            assert(decode_utf8(trimz(b)) == s);
        },
        DataType::Float => {},
        DataType::Double => {},
    }
}

/// A text without NUL characters at its edges encodes to bytes without
/// zero bytes at its edges.
proof fn lemma_edge_bytes(s: Seq<char>)
    requires
        s.len() > 0,
        s[0] != '\0',
        s.last() != '\0',
    ensures
        encode_utf8(s).len() > 0,
        encode_utf8(s)[0] != 0,
        encode_utf8(s).last() != 0,
{
    let enc = encode_utf8(s);
    lemma_encode_nonzero_first(s);
    lemma_encode_nonzero_last(s);
}

proof fn lemma_encode_nonzero_first(s: Seq<char>)
    requires
        s.len() > 0,
        s[0] != '\0',
    ensures
        encode_utf8(s).len() > 0,
        encode_utf8(s)[0] != 0,
    decreases s.len(),
{
    let c = s[0] as u32;
    vstd::utf8::char_is_scalar(s[0]);
    if s[0] as u32 == 0 {
        vstd::utf8::char_u32_cast(s[0], s[0] as u32);
        vstd::utf8::char_u32_cast('\0', '\0' as u32);
    }
    assert(c != 0);
    assert(encode_utf8(s) == vstd::utf8::encode_scalar(c) + encode_utf8(s.drop_first()));
    let e0 = vstd::utf8::encode_scalar(c);
    assert(e0.len() > 0 && e0[0] != 0) by {
        if c < 0x80 {
            assert(e0 == seq![vstd::utf8::leading_byte_width_1(c)]);
            assert(vstd::utf8::leading_byte_width_1(c) != 0) by (bit_vector)
                requires 0 < c < 0x80,
            ;
        } else {
            assert(e0[0] >= 0xC0 || e0.len() >= 2);
            lemma_leading_nonzero(c);
        }
    }
    assert(encode_utf8(s)[0] == e0[0]);
}

proof fn lemma_leading_nonzero(c: u32)
    requires
        c >= 0x80,
        vstd::utf8::is_scalar(c),
    ensures
        vstd::utf8::encode_scalar(c).len() > 0,
        vstd::utf8::encode_scalar(c)[0] != 0,
{
    let e = vstd::utf8::encode_scalar(c);
    if vstd::utf8::has_width_2_encoding(c) {
        assert(e[0] == vstd::utf8::leading_byte_width_2(c));
        assert(vstd::utf8::leading_byte_width_2(c) != 0) by (bit_vector);
    } else if vstd::utf8::has_width_3_encoding(c) {
        assert(e[0] == vstd::utf8::leading_byte_width_3(c));
        assert(vstd::utf8::leading_byte_width_3(c) != 0) by (bit_vector);
    } else {
        assert(e[0] == vstd::utf8::leading_byte_width_4(c));
        assert(vstd::utf8::leading_byte_width_4(c) != 0) by (bit_vector);
    }
}

proof fn lemma_encode_nonzero_last(s: Seq<char>)
    requires
        s.len() > 0,
        s.last() != '\0',
    ensures
        encode_utf8(s).len() > 0,
        encode_utf8(s).last() != 0,
    decreases s.len(),
{
    if s.len() == 1 {
        assert(s.drop_first().len() == 0);
        assert(encode_utf8(s.drop_first()).len() == 0);
        let c = s[0] as u32;
        vstd::utf8::char_is_scalar(s[0]);
        if s[0] as u32 == 0 {
            vstd::utf8::char_u32_cast(s[0], s[0] as u32);
            vstd::utf8::char_u32_cast('\0', '\0' as u32);
        }
        assert(c != 0);
        let e0 = vstd::utf8::encode_scalar(c);
        assert(encode_utf8(s) =~= e0 + encode_utf8(s.drop_first()));
        assert(encode_utf8(s) =~= e0);
        assert(e0.len() > 0 && e0.last() != 0) by {
            if c < 0x80 {
                assert(e0 == seq![vstd::utf8::leading_byte_width_1(c)]);
                assert(vstd::utf8::leading_byte_width_1(c) != 0) by (bit_vector)
                    requires 0 < c < 0x80,
                ;
            } else {
                assert(e0.last() == vstd::utf8::last_continuation_byte(c));
                assert(vstd::utf8::last_continuation_byte(c) != 0) by (bit_vector);
            }
        }
    } else {
        lemma_encode_nonzero_last(s.drop_first());
        assert(s.drop_first().last() == s.last());
        assert(encode_utf8(s) == vstd::utf8::encode_scalar(s[0] as u32) + encode_utf8(
            s.drop_first(),
        ));
        assert(encode_utf8(s).last() == encode_utf8(s.drop_first()).last());
    }
}

/// Encoding the attributes of a row from position `i` of the storing
/// order onward.
pub open spec fn spec_enc_attrs(
    meta: TableMeta,
    m: Map<Seq<char>, Seq<char>>,
    i: int,
) -> Result<Seq<u8>, BytesCoderError>
    decreases meta.attrs_order@.len() - i,
{
    if !(0 <= i < meta.attrs_order@.len()) {
        Ok(Seq::empty())
    } else if !m.contains_key(meta.attrs_order@[i]@) {
        Err(BytesCoderError::AttrNotExists)
    } else {
        match spec_field(meta.attrs@, meta.attrs_order@[i]@) {
            None => Err(BytesCoderError::AttrNotExists),
            Some(f) => {
                match spec_attr_to_bytes(f.datatype, m[meta.attrs_order@[i]@]) {
                    Err(e) => Err(e),
                    Ok(b) => {
                        match spec_enc_attrs(meta, m, i + 1) {
                            Err(e) => Err(e),
                            Ok(rest) => Ok(b + rest),
                        }
                    },
                }
            },
        }
    }
}

/// A whole record: the liveness byte, then the attributes in storing
/// order.
pub open spec fn spec_row_to_bytes(meta: TableMeta, m: Map<Seq<char>, Seq<char>>) -> Result<
    Seq<u8>,
    BytesCoderError,
> {
    match spec_enc_attrs(meta, m, 1) {
        Err(e) => Err(e),
        Ok(b) => Ok(seq![1u8] + b),
    }
}

/// Decoding the attributes of a record from position `i` onward.
pub open spec fn spec_dec_attrs(
    meta: TableMeta,
    bytes: Seq<u8>,
    i: int,
    acc: Map<Seq<char>, Seq<char>>,
) -> Result<Map<Seq<char>, Seq<char>>, BytesCoderError>
    decreases meta.attrs_order@.len() - i,
{
    if !(0 <= i < meta.attrs_order@.len()) {
        Ok(acc)
    } else if !(i < meta.attr_offset_ranges@.len() && meta.attr_offset_ranges@[i]@.len() == 2) {
        Err(BytesCoderError::Io)
    } else {
        let lo = meta.attr_offset_ranges@[i]@[0] as int;
        let hi = meta.attr_offset_ranges@[i]@[1] as int;
        if !(0 <= lo <= hi <= bytes.len()) {
            Err(BytesCoderError::Io)
        } else {
            match spec_field(meta.attrs@, meta.attrs_order@[i]@) {
                None => Err(BytesCoderError::AttrNotExists),
                Some(f) => {
                    match spec_bytes_to_attr(f.datatype, bytes.subrange(lo, hi)) {
                        Err(e) => Err(e),
                        Ok(v) => spec_dec_attrs(
                            meta,
                            bytes,
                            i + 1,
                            acc.insert(meta.attrs_order@[i]@, v),
                        ),
                    }
                },
            }
        }
    }
}

pub open spec fn spec_bytes_to_row(meta: TableMeta, bytes: Seq<u8>) -> Result<
    Map<Seq<char>, Seq<char>>,
    BytesCoderError,
> {
    spec_dec_attrs(meta, bytes, 1, Map::empty())
}

impl BytesCoder {
    /// Encodes a row into one fixed-width record.
    #[verifier::loop_isolation(false)]
    pub fn row_to_bytes(tablemeta: &TableMeta, row: &Row) -> (r: Result<Vec<u8>, BytesCoderError>)
        requires
            row.keys_unique(),
        ensures
            (match spec_row_to_bytes(*tablemeta, row@) {
                Ok(b) => r is Ok && r->Ok_0@ == b,
                Err(e) => r is Err && r->Err_0 == e,
            }),
    {
        let mut out: Vec<u8> = Vec::new();
        out.push(1);
        let n = tablemeta.attrs_order.len();
        if n == 0 {
            proof {
                assert(out@ =~= seq![1u8]);
                match spec_enc_attrs(*tablemeta, row@, 1) {
                    Ok(b) => {
                        assert(b =~= Seq::<u8>::empty());
                        assert(seq![1u8] + b =~= out@);
                    },
                    Err(_) => {},
                }
            }
            return Ok(out);
        }
        let mut i: usize = 1;
        proof {
            assert(out@ =~= seq![1u8]);
            match spec_enc_attrs(*tablemeta, row@, 1) {
                Ok(b) => {
                    assert(seq![1u8] + b =~= out@ + b);
                },
                Err(_) => {},
            }
        }
        while i < n
            invariant
                1 <= i <= n,
                n == tablemeta.attrs_order@.len(),
                row.keys_unique(),
                (match spec_enc_attrs(*tablemeta, row@, 1) {
                    Ok(full) => match spec_enc_attrs(*tablemeta, row@, i as int) {
                        Ok(rest) => seq![1u8] + full == out@ + rest,
                        Err(_) => false,
                    },
                    Err(e) => (match spec_enc_attrs(*tablemeta, row@, i as int) {
                        Ok(_) => false,
                        Err(e2) => e == e2,
                    }),
                }),
            decreases n - i,
        {
            let attr = &tablemeta.attrs_order[i];
            let value = match row.get(attr.as_str()) {
                Some(v) => v,
                None => {
                    return Err(BytesCoderError::AttrNotExists);
                },
            };
            let mut found: Option<&Field> = None;
            let na = tablemeta.attrs.len();
            let mut k: usize = 0;
            proof {
                assert(tablemeta.attrs@.skip(0) =~= tablemeta.attrs@);
            }
            while k < na
                invariant
                    k <= na,
                    na == tablemeta.attrs@.len(),
                    found is None,
                    spec_field(tablemeta.attrs@, attr@) == spec_field(
                        tablemeta.attrs@.skip(k as int),
                        attr@,
                    ),
                decreases na - k,
            {
                proof {
                    assert(tablemeta.attrs@.skip(k as int)[0] == tablemeta.attrs@[k as int]);
                    assert(tablemeta.attrs@.skip(k as int).skip(1) =~= tablemeta.attrs@.skip(
                        k + 1,
                    ));
                }
                if crate::strutil::str_eq(tablemeta.attrs[k].name.as_str(), attr.as_str()) {
                    found = Some(&tablemeta.attrs[k]);
                    break;
                }
                k += 1;
            }
            let f = match found {
                Some(f) => f,
                None => {
                    proof {
                        assert(tablemeta.attrs@.skip(na as int).len() == 0);
                        assert(spec_field(tablemeta.attrs@, attr@) is None);
                    }
                    return Err(BytesCoderError::AttrNotExists);
                },
            };
            let ab = match Self::attr_to_bytes(&f.datatype, value.as_str()) {
                Ok(b) => b,
                Err(e) => {
                    return Err(e);
                },
            };
            let ghost before = out@;
            let mut j: usize = 0;
            let nb = ab.len();
            while j < nb
                invariant
                    j <= nb,
                    nb == ab@.len(),
                    out@ =~= before + ab@.take(j as int),
                decreases nb - j,
            {
                out.push(ab[j]);
                proof {
                    assert(out@ =~= before + ab@.take(j + 1));
                }
                j += 1;
            }
            proof {
                assert(ab@.take(nb as int) =~= ab@);
                match spec_enc_attrs(*tablemeta, row@, i + 1) {
                    Ok(rest2) => {
                        assert(before + (ab@ + rest2) =~= out@ + rest2);
                    },
                    Err(_) => {},
                }
            }
            i += 1;
        }
        proof {
            match spec_enc_attrs(*tablemeta, row@, n as int) {
                Ok(rest) => {
                    assert(rest =~= Seq::<u8>::empty());
                    assert(out@ + rest =~= out@);
                },
                Err(_) => {},
            }
        }
        Ok(out)
    }

    /// Decodes one fixed-width record back into a row; the caller
    /// checks the liveness byte.
    #[verifier::loop_isolation(false)]
    pub fn bytes_to_row(tablemeta: &TableMeta, bytes: &Vec<u8>) -> (r: Result<
        Row,
        BytesCoderError,
    >)
        ensures
            (match spec_bytes_to_row(*tablemeta, bytes@) {
                Ok(m) => r is Ok && r->Ok_0@ == m && r->Ok_0.keys_unique() && r->Ok_0.is_dirty
                    && !r->Ok_0.is_delete,
                Err(e) => r is Err && r->Err_0 == e,
            }),
    {
        let mut new_row = Row::new();
        let n = tablemeta.attrs_order.len();
        if n == 0 {
            return Ok(new_row);
        }
        let mut i: usize = 1;
        while i < n
            invariant
                1 <= i <= n,
                n == tablemeta.attrs_order@.len(),
                new_row.keys_unique(),
                new_row.is_dirty,
                !new_row.is_delete,
                spec_dec_attrs(*tablemeta, bytes@, 1, Map::empty()) == spec_dec_attrs(
                    *tablemeta,
                    bytes@,
                    i as int,
                    new_row@,
                ),
            decreases n - i,
        {
            if !(i < tablemeta.attr_offset_ranges.len()) {
                return Err(BytesCoderError::Io);
            }
            let range = &tablemeta.attr_offset_ranges[i];
            if !(range.len() == 2) {
                return Err(BytesCoderError::Io);
            }
            let lo = range[0] as usize;
            let hi = range[1] as usize;
            if !(lo <= hi && hi <= bytes.len()) {
                return Err(BytesCoderError::Io);
            }
            let attr = &tablemeta.attrs_order[i];
            let mut found: Option<&Field> = None;
            let na = tablemeta.attrs.len();
            let mut k: usize = 0;
            proof {
                assert(tablemeta.attrs@.skip(0) =~= tablemeta.attrs@);
            }
            while k < na
                invariant
                    k <= na,
                    na == tablemeta.attrs@.len(),
                    found is None,
                    spec_field(tablemeta.attrs@, attr@) == spec_field(
                        tablemeta.attrs@.skip(k as int),
                        attr@,
                    ),
                decreases na - k,
            {
                proof {
                    assert(tablemeta.attrs@.skip(k as int)[0] == tablemeta.attrs@[k as int]);
                    assert(tablemeta.attrs@.skip(k as int).skip(1) =~= tablemeta.attrs@.skip(
                        k + 1,
                    ));
                }
                if crate::strutil::str_eq(tablemeta.attrs[k].name.as_str(), attr.as_str()) {
                    found = Some(&tablemeta.attrs[k]);
                    break;
                }
                k += 1;
            }
            let f = match found {
                Some(f) => f,
                None => {
                    proof {
                        assert(tablemeta.attrs@.skip(na as int).len() == 0);
                        assert(spec_field(tablemeta.attrs@, attr@) is None);
                    }
                    return Err(BytesCoderError::AttrNotExists);
                },
            };
            let mut piece: Vec<u8> = Vec::new();
            let mut j: usize = lo;
            while j < hi
                invariant
                    lo <= j <= hi <= bytes@.len(),
                    piece@ =~= bytes@.subrange(lo as int, j as int),
                decreases hi - j,
            {
                piece.push(bytes[j]);
                proof {
                    assert(piece@ =~= bytes@.subrange(lo as int, j + 1));
                }
                j += 1;
            }
            let value = match Self::bytes_to_attr(&f.datatype, &piece) {
                Ok(v) => v,
                Err(e) => {
                    return Err(e);
                },
            };
            new_row.insert(attr.clone(), value);
            i += 1;
        }
        Ok(new_row)
    }
}

/// Every stored attribute of the row is present and canonical.
pub open spec fn row_canonical(meta: TableMeta, m: Map<Seq<char>, Seq<char>>) -> bool {
    forall|i: int|
        1 <= i < meta.attrs_order@.len() ==> {
            let name = (#[trigger] meta.attrs_order@[i])@;
            &&& m.contains_key(name)
            &&& canonical_value(spec_field(meta.attrs@, name)->Some_0.datatype, m[name])
        }
}

/// The bytes of one attribute of the row, in storing order.
pub open spec fn row_attr_bytes(meta: TableMeta, m: Map<Seq<char>, Seq<char>>, i: int) -> Seq<
    u8,
> {
    spec_attr_to_bytes(
        spec_field(meta.attrs@, meta.attrs_order@[i]@)->Some_0.datatype,
        m[meta.attrs_order@[i]@],
    )->Ok_0
}

/// Where the bytes of position `i` begin; past the end, the record is
/// over.
pub open spec fn spec_attr_start(meta: TableMeta, i: int) -> int {
    if i < meta.attrs_order@.len() {
        meta.attr_offset_ranges@[i]@[0] as int
    } else {
        meta.row_length as int
    }
}

/// The name stands at some position from `i` onward of the storing
/// order.
pub open spec fn name_in_tail(meta: TableMeta, i: int, name: Seq<char>) -> bool {
    exists|j: int| i <= j < meta.attrs_order@.len() && (#[trigger] meta.attrs_order@[j])@ == name
}

proof fn lemma_enc_attrs(meta: TableMeta, m: Map<Seq<char>, Seq<char>>, i: int)
    requires
        meta.wf(),
        row_canonical(meta, m),
        1 <= i <= meta.attrs_order@.len(),
    ensures
        spec_enc_attrs(meta, m, i) is Ok,
        spec_enc_attrs(meta, m, i)->Ok_0.len() == meta.row_length - spec_attr_start(meta, i),
        i < meta.attrs_order@.len() ==> spec_enc_attrs(meta, m, i)->Ok_0 == row_attr_bytes(
            meta,
            m,
            i,
        ) + spec_enc_attrs(meta, m, i + 1)->Ok_0 && row_attr_bytes(meta, m, i).len()
            == meta.attr_offset_ranges@[i]@[1] - meta.attr_offset_ranges@[i]@[0],
    decreases meta.attrs_order@.len() - i,
{
    let len = meta.attrs_order@.len() as int;
    if i == len {
        assert(spec_enc_attrs(meta, m, i)->Ok_0.len() == 0);
    } else {
        let name = meta.attrs_order@[i]@;
        let f = spec_field(meta.attrs@, name)->Some_0;
        assert(m.contains_key(name) && canonical_value(f.datatype, m[name]));
        lemma_attr_round_trip(f.datatype, m[name]);
        let b = spec_attr_to_bytes(f.datatype, m[name])->Ok_0;
        assert(b.len() == f.datatype.spec_size()) by {
            match f.datatype {
                DataType::Int => {
                    lemma_auto_spec_u32_to_from_le_bytes();
                },
                _ => {},
            }
        }
        lemma_enc_attrs(meta, m, i + 1);
        assert(meta.attr_offset_ranges@[i]@[1] == meta.attr_offset_ranges@[i]@[0]
            + f.datatype.spec_size());
        if i + 1 < len {
            assert(meta.attr_offset_ranges@[i + 1]@[0] == meta.attr_offset_ranges@[i]@[1]);
        } else {
            assert(meta.row_length == meta.attr_offset_ranges@[len - 1]@[1]);
        }
    }
}

/// What decoding from position `i` yields once every attribute round
/// trips: the accumulator, with the tail's attributes set to the row's
/// values.
pub open spec fn spec_dec_target(
    meta: TableMeta,
    m: Map<Seq<char>, Seq<char>>,
    i: int,
    acc: Map<Seq<char>, Seq<char>>,
) -> Map<Seq<char>, Seq<char>> {
    Map::new(
        |name: Seq<char>| acc.contains_key(name) || name_in_tail(meta, i, name),
        |name: Seq<char>|
            if name_in_tail(meta, i, name) {
                m[name]
            } else {
                acc[name]
            },
    )
}

proof fn lemma_dec_attrs(
    meta: TableMeta,
    m: Map<Seq<char>, Seq<char>>,
    full: Seq<u8>,
    i: int,
    acc: Map<Seq<char>, Seq<char>>,
)
    requires
        meta.wf(),
        row_canonical(meta, m),
        1 <= i <= meta.attrs_order@.len(),
        full.len() == meta.row_length,
        full.subrange(spec_attr_start(meta, i), meta.row_length as int) == spec_enc_attrs(
            meta,
            m,
            i,
        )->Ok_0,
    ensures
        spec_dec_attrs(meta, full, i, acc) == Ok::<Map<Seq<char>, Seq<char>>, BytesCoderError>(
            spec_dec_target(meta, m, i, acc),
        ),
    decreases meta.attrs_order@.len() - i,
{
    let len = meta.attrs_order@.len() as int;
    lemma_enc_attrs(meta, m, i);
    if i == len {
        assert(spec_dec_target(meta, m, i, acc) =~= acc);
    } else {
        let name = meta.attrs_order@[i]@;
        let f = spec_field(meta.attrs@, name)->Some_0;
        lemma_attr_round_trip(f.datatype, m[name]);
        lemma_enc_attrs(meta, m, i + 1);
        let lo = meta.attr_offset_ranges@[i]@[0] as int;
        let hi = meta.attr_offset_ranges@[i]@[1] as int;
        let rl = meta.row_length as int;
        let b = row_attr_bytes(meta, m, i);
        let rest = spec_enc_attrs(meta, m, i + 1)->Ok_0;
        assert(spec_attr_start(meta, i + 1) == hi);
        assert(hi - lo == b.len());
        assert(rl - hi == rest.len());
        assert(0 <= lo <= hi <= rl);
        assert(full.subrange(lo, rl) == b + rest);
        assert(full.subrange(lo, hi) =~= full.subrange(lo, rl).take(b.len() as int));
        assert((b + rest).take(b.len() as int) =~= b);
        assert(spec_bytes_to_attr(f.datatype, full.subrange(lo, hi)) == Ok::<Seq<char>,
            BytesCoderError>(m[name]));
        assert(full.subrange(hi, rl) =~= full.subrange(lo, rl).skip(b.len() as int));
        assert((b + rest).skip(b.len() as int) =~= rest);
        let acc2 = acc.insert(name, m[name]);
        lemma_dec_attrs(meta, m, full, i + 1, acc2);
        assert(spec_dec_target(meta, m, i + 1, acc2) =~= spec_dec_target(meta, m, i, acc)) by {
            assert forall|nm: Seq<char>|
                spec_dec_target(meta, m, i + 1, acc2).contains_key(nm) <==> spec_dec_target(
                    meta,
                    m,
                    i,
                    acc,
                ).contains_key(nm) by {
                if name_in_tail(meta, i + 1, nm) || nm == name {
                    assert(name_in_tail(meta, i, nm)) by {
                        if nm == name {
                            assert(meta.attrs_order@[i]@ == nm);
                        } else {
                            let j = choose|j: int|
                                i + 1 <= j < len && (#[trigger] meta.attrs_order@[j])@ == nm;
                            assert(i <= j < len && meta.attrs_order@[j]@ == nm);
                        }
                    }
                }
                if name_in_tail(meta, i, nm) && nm != name && !name_in_tail(meta, i + 1, nm) {
                    let j = choose|j: int|
                        i <= j < len && (#[trigger] meta.attrs_order@[j])@ == nm;
                    assert(j == i || i + 1 <= j < len);
                    assert(false);
                }
            }
            assert forall|nm: Seq<char>|
                spec_dec_target(meta, m, i, acc).contains_key(nm) implies spec_dec_target(
                meta,
                m,
                i + 1,
                acc2,
            )[nm] == spec_dec_target(meta, m, i, acc)[nm] by {
                if name_in_tail(meta, i, nm) {
                    if !name_in_tail(meta, i + 1, nm) {
                        let j = choose|j: int|
                            i <= j < len && (#[trigger] meta.attrs_order@[j])@ == nm;
                        assert(j == i);
                        assert(nm == name);
                        assert(acc2[nm] == m[nm]);
                    }
                } else {
                    assert(nm != name);
                    assert(acc2[nm] == acc[nm]);
                }
            }
        }
    }
}

/// Round trip of a whole record: decoding the encoding of a row whose
/// values are canonical recovers exactly the stored attributes.
pub proof fn lemma_row_round_trip(meta: TableMeta, m: Map<Seq<char>, Seq<char>>)
    requires
        meta.wf(),
        row_canonical(meta, m),
    ensures
        spec_row_to_bytes(meta, m) is Ok,
        spec_row_to_bytes(meta, m)->Ok_0.len() == meta.row_length,
        spec_bytes_to_row(meta, spec_row_to_bytes(meta, m)->Ok_0) is Ok,
        ({
            let d = spec_bytes_to_row(meta, spec_row_to_bytes(meta, m)->Ok_0)->Ok_0;
            &&& (forall|i: int|
                1 <= i < meta.attrs_order@.len() ==> d.contains_key(
                    (#[trigger] meta.attrs_order@[i])@,
                ) && d[meta.attrs_order@[i]@] == m[meta.attrs_order@[i]@])
            &&& (forall|nm: Seq<char>|
                d.contains_key(nm) ==> exists|i: int|
                    1 <= i < meta.attrs_order@.len() && (#[trigger] meta.attrs_order@[i])@ == nm)
        }),
{
    let len = meta.attrs_order@.len() as int;
    lemma_enc_attrs(meta, m, 1);
    let e = spec_enc_attrs(meta, m, 1)->Ok_0;
    let full = spec_row_to_bytes(meta, m)->Ok_0;
    assert(full == seq![1u8] + e);
    assert(spec_attr_start(meta, 1) == 1) by {
        if 1 < len {
            assert(meta.attr_offset_ranges@[1]@[0] == meta.attr_offset_ranges@[0]@[1]);
        } else {
            assert(meta.row_length == meta.attr_offset_ranges@[0]@[1]);
        }
    }
    assert(full.len() == meta.row_length);
    assert(full.subrange(1, meta.row_length as int) =~= e);
    lemma_dec_attrs(meta, m, full, 1, Map::empty());
    let d = spec_bytes_to_row(meta, full)->Ok_0;
    assert(d == spec_dec_target(meta, m, 1, Map::<Seq<char>, Seq<char>>::empty()));
    assert forall|i: int|
        1 <= i < len implies d.contains_key((#[trigger] meta.attrs_order@[i])@)
        && d[meta.attrs_order@[i]@] == m[meta.attrs_order@[i]@] by {
        let nm = meta.attrs_order@[i]@;
        assert(name_in_tail(meta, 1, nm)) by {
            assert(1 <= i < len && meta.attrs_order@[i]@ == nm);
        }
    }
}

} // verus!
