//! The sample types of LERC2.
use vstd::prelude::*;

verus! {

/// The sample data types, in the order of their codes.
#[derive(Clone, Copy, Debug, PartialEq, Eq, Structural)]
pub enum DataType {
    Char,
    Byte,
    Short,
    UShort,
    Int,
    UInt,
    Float,
    Double,
}

impl DataType {
    /// The data type with a given code.
    pub open spec fn of_code(v: int) -> Option<DataType> {
        if v == 0 {
            Some(DataType::Char)
        } else if v == 1 {
            Some(DataType::Byte)
        } else if v == 2 {
            Some(DataType::Short)
        } else if v == 3 {
            Some(DataType::UShort)
        } else if v == 4 {
            Some(DataType::Int)
        } else if v == 5 {
            Some(DataType::UInt)
        } else if v == 6 {
            Some(DataType::Float)
        } else if v == 7 {
            Some(DataType::Double)
        } else {
            None
        }
    }

    /// The code of a data type.
    pub open spec fn code_spec(self) -> int {
        match self {
            DataType::Char => 0,
            DataType::Byte => 1,
            DataType::Short => 2,
            DataType::UShort => 3,
            DataType::Int => 4,
            DataType::UInt => 5,
            DataType::Float => 6,
            DataType::Double => 7,
        }
    }

    /// The number of bytes of a sample.
    pub open spec fn size_spec(self) -> nat {
        match self {
            DataType::Char | DataType::Byte => 1,
            DataType::Short | DataType::UShort => 2,
            DataType::Int | DataType::UInt | DataType::Float => 4,
            DataType::Double => 8,
        }
    }

    /// The data type with a given code.
    pub fn from_i32(v: i32) -> (r: Option<DataType>)
        ensures
            r == DataType::of_code(v as int),
    {
        match v {
            0 => Some(DataType::Char),
            1 => Some(DataType::Byte),
            2 => Some(DataType::Short),
            3 => Some(DataType::UShort),
            4 => Some(DataType::Int),
            5 => Some(DataType::UInt),
            6 => Some(DataType::Float),
            7 => Some(DataType::Double),
            _ => None,
        }
    }

    /// The code of a data type.
    pub fn code(self) -> (r: i32)
        ensures
            r == self.code_spec(),
            0 <= r <= 7,
    {
        match self {
            DataType::Char => 0,
            DataType::Byte => 1,
            DataType::Short => 2,
            DataType::UShort => 3,
            DataType::Int => 4,
            DataType::UInt => 5,
            DataType::Float => 6,
            DataType::Double => 7,
        }
    }

    /// The number of bytes of a sample.
    pub fn size(self) -> (r: usize)
        ensures
            r == self.size_spec(),
            1 <= r <= 8,
    {
        match self {
            DataType::Char | DataType::Byte => 1,
            DataType::Short | DataType::UShort => 2,
            DataType::Int | DataType::UInt | DataType::Float => 4,
            DataType::Double => 8,
        }
    }
}

/// The type in which a tile of type `dt` stores its offset, where the tile's flag
/// carries the reduction code `tc`.
pub open spec fn reduced_type(dt: DataType, tc: int) -> Option<DataType> {
    match dt {
        DataType::Short | DataType::Int => DataType::of_code(dt.code_spec() - tc),
        DataType::UShort | DataType::UInt => DataType::of_code(dt.code_spec() - 2 * tc),
        DataType::Float => if tc == 0 {
            Some(DataType::Float)
        } else if tc == 1 {
            Some(DataType::Short)
        } else {
            Some(DataType::Byte)
        },
        DataType::Double => if tc == 0 {
            Some(DataType::Double)
        } else {
            DataType::of_code(8 - 2 * tc)
        },
        DataType::Char | DataType::Byte => Some(dt),
    }
}

/// Whether `get_data_type_used` computes with 32-bit integers only.
pub open spec fn reduction_in_range(dt: DataType, tc: int) -> bool {
    match dt {
        DataType::Short | DataType::Int => dt.code_spec() - tc <= i32::MAX,
        DataType::UShort | DataType::UInt => i32::MIN <= 2 * tc <= i32::MAX && dt.code_spec() - 2
            * tc <= i32::MAX,
        DataType::Double => tc != 0 ==> i32::MIN <= 2 * tc <= i32::MAX && 8 - 2 * tc <= i32::MAX,
        DataType::Char | DataType::Byte | DataType::Float => true,
    }
}

/// The type in which a tile of type `dt` stores its offset (see `reduced_type`).
pub fn get_data_type_used(dt: DataType, tc: i32) -> (r: Option<DataType>)
    requires
        reduction_in_range(dt, tc as int),
    ensures
        r == reduced_type(dt, tc as int),
{
    match dt {
        DataType::Short | DataType::Int => DataType::from_i32(dt.code() - tc),
        DataType::UShort | DataType::UInt => DataType::from_i32(dt.code() - 2 * tc),
        DataType::Float => if tc == 0 {
            Some(DataType::Float)
        } else if tc == 1 {
            Some(DataType::Short)
        } else {
            Some(DataType::Byte)
        },
        DataType::Double => if tc == 0 {
            Some(DataType::Double)
        } else {
            DataType::from_i32(dt.code() - 2 * tc + 1)
        },
        DataType::Char | DataType::Byte => Some(dt),
    }
}

/// The code of a data type finds it again.
pub proof fn law_codes_name_types(dt: DataType)
    ensures
        DataType::of_code(dt.code_spec()) == Some(dt),
{
}

/// A reduced type never takes more bytes than the type that it stands in for.
pub proof fn law_reduced_types_are_not_larger(dt: DataType, tc: int)
    requires
        tc >= 0,
    ensures
        reduced_type(dt, tc) matches Some(used) ==> used.size_spec() <= dt.size_spec(),
{
}

} // verus!
