//! Per-payload encodings of a column's values section.
//!
//! A column payload is a validity bitmap and a values section; an encoding
//! applies to the values section only. Which encoding a payload has, and its
//! three parameter bytes, stand in the directory of its node group.

pub mod alp;
pub mod bitpack_for;
pub mod constant;
pub mod dictionary;
pub mod fsst;
pub mod rle;
pub mod select;
pub mod slots;
pub mod symbols;

use vstd::prelude::*;

use crate::bytes;
use crate::encodings::alp::AlpSection;
use crate::error::{corrupt, invalid_argument, DevonResult, ErrorKind};
use crate::text::with_name;
use crate::types;
use crate::types::{Bitmap, Column, LogicalType};

verus! {

/// The encoding of a values section.
#[derive(Debug, Clone, Copy, PartialEq, Eq, Structural)]
pub enum Encoding {
    /// The plain layout.
    Plain,
    /// One shared value.
    Constant,
    /// Runs of one value.
    Rle,
    /// Transposed bit-packing over a frame of reference.
    BitpackFor,
    /// Codes into a sorted dictionary.
    Dictionary,
    /// Strings over a symbol table.
    Fsst,
    /// Doubles as scaled integers.
    Alp,
}

/// The id that a directory holds for an encoding.
pub open spec fn encoding_id(encoding: Encoding) -> u8 {
    match encoding {
        Encoding::Plain => 0,
        Encoding::Constant => 1,
        Encoding::Rle => 2,
        Encoding::BitpackFor => 3,
        Encoding::Dictionary => 4,
        Encoding::Fsst => 5,
        Encoding::Alp => 6,
    }
}

/// Whether an encoding may carry a type.
pub open spec fn admissible(encoding: Encoding, ty: LogicalType) -> bool {
    match encoding {
        Encoding::Plain => true,
        Encoding::Constant => ty is Int64 || ty is Float64 || ty is Bool || ty is Timestamp
            || ty is Decimal || ty is String,
        Encoding::Rle => ty is Int64 || ty is Timestamp || ty is Decimal || ty is Bool,
        Encoding::BitpackFor => ty is Int64 || ty is Timestamp,
        Encoding::Dictionary => ty is String,
        Encoding::Fsst => ty is String,
        Encoding::Alp => ty is Float64,
    }
}

impl Encoding {
    /// The id that a directory holds.
    pub fn id(self) -> (id: u8)
        ensures
            id == encoding_id(self),
    {
        match self {
            Encoding::Plain => 0,
            Encoding::Constant => 1,
            Encoding::Rle => 2,
            Encoding::BitpackFor => 3,
            Encoding::Dictionary => 4,
            Encoding::Fsst => 5,
            Encoding::Alp => 6,
        }
    }

    /// The encoding of an id; `None` for an id that no encoding has.
    pub fn from_id(id: u8) -> (found: Option<Encoding>)
        ensures
            match found {
                Some(encoding) => encoding_id(encoding) == id,
                None => forall|encoding: Encoding| #[trigger] encoding_id(encoding) != id,
            },
    {
        match id {
            0 => Some(Encoding::Plain),
            1 => Some(Encoding::Constant),
            2 => Some(Encoding::Rle),
            3 => Some(Encoding::BitpackFor),
            4 => Some(Encoding::Dictionary),
            5 => Some(Encoding::Fsst),
            6 => Some(Encoding::Alp),
            _ => None,
        }
    }

    /// The name of the encoding in messages.
    pub fn name(self) -> (name: &'static str)
        ensures
            name@ == (match self {
                Encoding::Plain => "plain",
                Encoding::Constant => "constant",
                Encoding::Rle => "rle",
                Encoding::BitpackFor => "bitpack_for",
                Encoding::Dictionary => "dictionary",
                Encoding::Fsst => "fsst",
                Encoding::Alp => "alp",
            })@,
    {
        match self {
            Encoding::Plain => "plain",
            Encoding::Constant => "constant",
            Encoding::Rle => "rle",
            Encoding::BitpackFor => "bitpack_for",
            Encoding::Dictionary => "dictionary",
            Encoding::Fsst => "fsst",
            Encoding::Alp => "alp",
        }
    }

    /// Whether the encoding may carry the type.
    pub fn is_admissible_for(self, ty: &LogicalType) -> (yes: bool)
        ensures
            yes == admissible(self, *ty),
    {
        match (self, ty) {
            (Encoding::Plain, _) => true,
            (Encoding::Constant, LogicalType::Int64) => true,
            (Encoding::Constant, LogicalType::Float64) => true,
            (Encoding::Constant, LogicalType::Bool) => true,
            (Encoding::Constant, LogicalType::Timestamp) => true,
            (Encoding::Constant, LogicalType::Decimal { .. }) => true,
            (Encoding::Constant, LogicalType::String) => true,
            (Encoding::Rle, LogicalType::Int64) => true,
            (Encoding::Rle, LogicalType::Timestamp) => true,
            (Encoding::Rle, LogicalType::Decimal { .. }) => true,
            (Encoding::Rle, LogicalType::Bool) => true,
            (Encoding::BitpackFor, LogicalType::Int64) => true,
            (Encoding::BitpackFor, LogicalType::Timestamp) => true,
            (Encoding::Dictionary, LogicalType::String) => true,
            (Encoding::Fsst, LogicalType::String) => true,
            (Encoding::Alp, LogicalType::Float64) => true,
            _ => false,
        }
    }
}

/// An id names its encoding and no other.
pub proof fn law_ids_distinct(a: Encoding, b: Encoding)
    ensures
        encoding_id(a) == encoding_id(b) ==> a == b,
{
}

/// What a column brings beside its rows: its plain section, and the scaled
/// rows where it holds doubles.
#[derive(Debug)]
pub struct Prepared {
    pub plain: Vec<u8>,
    pub scaled: AlpSection,
}

/// Whether these are the section and the parameters of a column under an
/// encoding.
pub open spec fn is_encoded(
    encoding: Encoding,
    column: Column,
    ty: LogicalType,
    prepared: Prepared,
    section: Seq<u8>,
    params: Seq<u8>,
) -> bool {
    match encoding {
        Encoding::Plain => section == prepared.plain@ && params == seq![0u8, 0, 0],
        Encoding::Constant => constant::encoding_of(column.rows(), ty, Some(section)) && params
            == seq![0u8, 0, 0],
        Encoding::Rle => rle::encoding_of(column.rows(), ty) == Some(section) && params
            == seq![0u8, 0, 0],
        Encoding::BitpackFor => bitpack_for::typed_storage(column, ty) && bitpack_for::is_encoding(
            column.rows(),
            section,
            params,
        ),
        Encoding::Dictionary => dictionary::all_strings(column.rows()) && dictionary::is_encoding(
            column.rows(),
            section,
        ) && params == seq![dictionary::CODE_WIDTH, 0, 0],
        Encoding::Fsst => fsst::all_strings(column.rows()) && fsst::is_encoding(
            column.rows(),
            section,
        ) && params == seq![0u8, 0, 0],
        Encoding::Alp => alp::is_encoding(
            prepared.scaled.rows@,
            prepared.scaled.e,
            prepared.scaled.f,
            section,
        ) && params == seq![prepared.scaled.e, prepared.scaled.f, 0u8],
    }
}

/// Whether an encoding cannot hold a column of a type that it may carry.
pub open spec fn refuses(encoding: Encoding, column: Column, ty: LogicalType) -> bool {
    match encoding {
        Encoding::Plain => false,
        Encoding::Constant => constant::encoding_of(column.rows(), ty, None),
        Encoding::Rle => rle::encoding_of(column.rows(), ty) is None,
        Encoding::BitpackFor => !bitpack_for::typed_storage(column, ty),
        Encoding::Dictionary => dictionary::refused(column.rows()),
        Encoding::Fsst => fsst::refused(column.rows()),
        Encoding::Alp => false,
    }
}

/// Encodes a column's values section: the section and the parameters.
pub fn encode_values(encoding: Encoding, column: &Column, ty: &LogicalType, prepared: &Prepared) -> (result:
    DevonResult<(Vec<u8>, [u8; 3])>)
    requires
        encoding is Alp ==> prepared.scaled.rows@.len() <= u32::MAX,
    ensures
        match result {
            Ok((section, params)) => {
                &&& admissible(encoding, *ty)
                &&& is_encoded(encoding, *column, *ty, *prepared, section@, params@)
            },
            Err(error) => {
                &&& !admissible(encoding, *ty) || refuses(encoding, *column, *ty)
                &&& error.kind_of() == ErrorKind::InvalidArgument
            },
        },
{
    if !encoding.is_admissible_for(ty) {
        let head: String = with_name("encoding ", encoding.name(), " is not admissible for ");
        return Err(invalid_argument(with_name(head.as_str(), ty.name(), "").as_str()));
    }
    match encoding {
        Encoding::Plain => {
            let mut section: Vec<u8> = Vec::new();
            bytes::put_bytes(&mut section, prepared.plain.as_slice());
            assert(section@ =~= prepared.plain@);
            let params: [u8; 3] = [0u8, 0u8, 0u8];
            assert(params@ =~= seq![0u8, 0, 0]);
            Ok((section, params))
        },
        Encoding::Constant => constant::encode(column, ty),
        Encoding::Rle => rle::encode(column, ty),
        Encoding::BitpackFor => bitpack_for::encode(column, ty),
        Encoding::Dictionary => dictionary::encode(column, ty),
        Encoding::Fsst => fsst::encode(column, ty),
        Encoding::Alp => Ok(
            alp::encode(&prepared.scaled.rows, prepared.scaled.e, prepared.scaled.f),
        ),
    }
}

/// A decoded values section.
#[derive(Debug, PartialEq, Eq)]
pub enum Decoded {
    /// The column.
    Column(Column),
    /// The section is plain, and lawful so far as its parameters go.
    Plain,
    /// The rows of a column of doubles, to be scaled back.
    Scaled(AlpSection),
}

/// The rows that a section decodes to under an encoding that yields a
/// column; `None` is a refusal.
pub open spec fn column_decoding(
    encoding: Encoding,
    params: Seq<u8>,
    section: Seq<u8>,
    bits: Seq<bool>,
    row_count: nat,
    ty: LogicalType,
) -> Option<Seq<crate::types::ValueView>> {
    match encoding {
        Encoding::Constant => constant::decoding_of(params, section, bits, row_count, ty),
        Encoding::Rle => rle::decoding_of(params, section, bits, row_count, ty),
        Encoding::BitpackFor => bitpack_for::decoding_of(params, section, bits, row_count, ty),
        Encoding::Dictionary => dictionary::decoding_of(params, section, bits, row_count, ty),
        Encoding::Fsst => fsst::decoding_of(params, section, bits, row_count, ty),
        _ => None,
    }
}

/// Whether a section is refused.
pub open spec fn section_refused(
    encoding: Encoding,
    params: Seq<u8>,
    section: Seq<u8>,
    bits: Seq<bool>,
    row_count: nat,
    ty: LogicalType,
) -> bool {
    match encoding {
        Encoding::Plain => params != seq![0u8, 0, 0],
        Encoding::Alp => alp::decoding_of(params, section, bits, row_count, ty) is None,
        _ => column_decoding(encoding, params, section, bits, row_count, ty) is None,
    }
}

/// Decodes a values section.
pub fn decode_values(
    encoding: Encoding,
    params: [u8; 3],
    section: &[u8],
    validity: &Bitmap,
    row_count: usize,
    ty: &LogicalType,
) -> (result: DevonResult<Decoded>)
    ensures
        match result {
            Ok(Decoded::Column(column)) => {
                &&& !(encoding is Plain || encoding is Alp)
                &&& column_decoding(
                    encoding,
                    params@,
                    section@,
                    validity@,
                    row_count as nat,
                    *ty,
                ) == Some(column.rows())
                &&& column.stored_as(*ty, validity@)
            },
            Ok(Decoded::Plain) => encoding is Plain && params@ == seq![0u8, 0, 0],
            Ok(Decoded::Scaled(decoded)) => {
                &&& encoding is Alp
                &&& alp::decoding_of(params@, section@, validity@, row_count as nat, *ty) == Some(
                    decoded.rows@,
                )
                &&& decoded.e == params@[0]
                &&& decoded.f == params@[1]
            },
            Err(error) => {
                &&& section_refused(
                    encoding,
                    params@,
                    section@,
                    validity@,
                    row_count as nat,
                    *ty,
                )
                &&& error.kind_of() == ErrorKind::Corrupt
            },
        },
{
    let decoded: DevonResult<Column> = match encoding {
        Encoding::Plain => {
            if params[0] != 0 || params[1] != 0 || params[2] != 0 {
                return Err(corrupt("encoding plain parameters are not zero"));
            }
            assert(params@ =~= seq![0u8, 0, 0]);
            return Ok(Decoded::Plain);
        },
        Encoding::Alp => {
            return match alp::decode(params, section, validity, row_count, ty) {
                Ok(decoded) => Ok(Decoded::Scaled(decoded)),
                Err(error) => Err(error),
            };
        },
        Encoding::Constant => constant::decode(params, section, validity, row_count, ty),
        Encoding::Rle => rle::decode(params, section, validity, row_count, ty),
        Encoding::BitpackFor => bitpack_for::decode(params, section, validity, row_count, ty),
        Encoding::Dictionary => dictionary::decode(params, section, validity, row_count, ty),
        Encoding::Fsst => fsst::decode(params, section, validity, row_count, ty),
    };
    match decoded {
        Ok(column) => Ok(Decoded::Column(column)),
        Err(error) => Err(error),
    }
}

/// What was encoded is decoded, whatever the encoding: a column whose values
/// fit its type comes back from its section and parameters. A plain section
/// comes back as it is, and a column of doubles as its scaled rows.
pub proof fn law_values_round_trip(
    encoding: Encoding,
    column: Column,
    ty: LogicalType,
    prepared: Prepared,
    section: Seq<u8>,
    params: Seq<u8>,
)
    requires
        admissible(encoding, ty),
        is_encoded(encoding, column, ty, prepared, section, params),
        ty matches LogicalType::Decimal { precision, scale } ==> types::decimal_declared(
            precision,
            scale,
        ),
        forall|i: int|
            0 <= i < column.rows().len() ==> (#[trigger] column.rows()[i]).fits_type(ty),
        encoding is Alp ==> prepared.scaled.rows@.len() <= u32::MAX,
    ensures
        match encoding {
            Encoding::Plain => section == prepared.plain@ && !section_refused(
                encoding,
                params,
                section,
                types::validity_of(column.rows()),
                column.rows().len(),
                ty,
            ),
            Encoding::Alp => alp::decoding_of(
                params,
                section,
                alp::validity_of(prepared.scaled.rows@),
                prepared.scaled.rows@.len(),
                ty,
            ) == Some(prepared.scaled.rows@),
            _ => column_decoding(
                encoding,
                params,
                section,
                types::validity_of(column.rows()),
                column.rows().len(),
                ty,
            ) == Some(column.rows()),
        },
{
    let rows = column.rows();
    match encoding {
        Encoding::Plain => {},
        Encoding::Constant => {
            constant::law_constant_round_trip(rows, ty, section);
        },
        Encoding::Rle => {
            rle::law_rle_round_trip(rows, ty, section);
        },
        Encoding::BitpackFor => {
            bitpack_for::law_bitpack_round_trip(rows, ty, section, params);
        },
        Encoding::Dictionary => {
            dictionary::law_dictionary_round_trip(rows, section);
        },
        Encoding::Fsst => {
            fsst::law_fsst_round_trip(rows, section);
        },
        Encoding::Alp => {
            alp::law_alp_round_trip(
                prepared.scaled.rows@,
                prepared.scaled.e,
                prepared.scaled.f,
                section,
            );
        },
    }
}

/// The directory record of a column: the encoding's id and the parameters.
pub open spec fn record_of(selection: (Encoding, [u8; 3])) -> Seq<u8> {
    seq![encoding_id(selection.0)] + selection.1@
}

/// The directory section of a group's columns: one record of four bytes per
/// column.
pub fn encode_section_payload(selections: &[(Encoding, [u8; 3])]) -> (payload: Vec<u8>)
    ensures
        payload@.len() == 4 * selections@.len(),
        forall|i: int|
            #![trigger selections@[i]]
            0 <= i < selections@.len() ==> payload@.subrange(4 * i, 4 * i + 4) == record_of(
                selections@[i],
            ),
{
    let mut payload: Vec<u8> = Vec::new();
    let mut i: usize = 0;
    while i < selections.len()
        invariant
            i <= selections@.len(),
            payload@.len() == 4 * i,
            forall|j: int|
                #![trigger selections@[j]]
                0 <= j < i ==> payload@.subrange(4 * j, 4 * j + 4) == record_of(selections@[j]),
        decreases selections@.len() - i,
    {
        let ghost before = payload@;
        let (encoding, params): (Encoding, [u8; 3]) = selections[i];
        payload.push(encoding.id());
        payload.push(params[0]);
        payload.push(params[1]);
        payload.push(params[2]);
        proof {
            assert(payload@.subrange(4 * i, 4 * i + 4) =~= record_of(selections@[i as int]));
            assert forall|j: int|
                #![trigger selections@[j]]
                0 <= j < i implies payload@.subrange(4 * j, 4 * j + 4) == record_of(
                selections@[j],
            ) by {
                assert(payload@.subrange(4 * j, 4 * j + 4) =~= before.subrange(4 * j, 4 * j + 4));
            }
        }
        i += 1;
    }
    payload
}

} // verus!
