use vstd::prelude::*;

verus! {

/// The primitive operations a term can name. A function's wire code is its place in
/// this list, so new functions are only ever added at the end.
#[allow(non_camel_case_types)]
#[derive(Clone, Copy, Debug, PartialEq, Eq, Structural)]
pub enum DefaultFunction {
    AddInteger,
    SubtractInteger,
    MultiplyInteger,
    DivideInteger,
    QuotientInteger,
    RemainderInteger,
    ModInteger,
    EqualsInteger,
    LessThanInteger,
    LessThanEqualsInteger,
    AppendByteString,
    ConsByteString,
    SliceByteString,
    LengthOfByteString,
    IndexByteString,
    EqualsByteString,
    LessThanByteString,
    LessThanEqualsByteString,
    Sha2_256,
    Sha3_256,
    Blake2b_256,
    VerifySignature,
    AppendString,
    EqualsString,
    EncodeUtf8,
    DecodeUtf8,
    IfThenElse,
    ChooseUnit,
    Trace,
    FstPair,
    SndPair,
    ChooseList,
    MkCons,
    HeadList,
    TailList,
    NullList,
    ChooseData,
    ConstrData,
    MapData,
    ListData,
    IData,
    BData,
    UnConstrData,
    UnMapData,
    UnListData,
    UnIData,
    UnBData,
    EqualsData,
    MkPairData,
    MkNilData,
    MkNilPairData,
}

/// How many builtin functions there are; their codes are `0..BUILTIN_COUNT`.
pub const BUILTIN_COUNT: u8 = 51;

impl DefaultFunction {
    /// The wire code of a builtin function.
    pub open spec fn code(self) -> u8 {
        match self {
            DefaultFunction::AddInteger => 0,
            DefaultFunction::SubtractInteger => 1,
            DefaultFunction::MultiplyInteger => 2,
            DefaultFunction::DivideInteger => 3,
            DefaultFunction::QuotientInteger => 4,
            DefaultFunction::RemainderInteger => 5,
            DefaultFunction::ModInteger => 6,
            DefaultFunction::EqualsInteger => 7,
            DefaultFunction::LessThanInteger => 8,
            DefaultFunction::LessThanEqualsInteger => 9,
            DefaultFunction::AppendByteString => 10,
            DefaultFunction::ConsByteString => 11,
            DefaultFunction::SliceByteString => 12,
            DefaultFunction::LengthOfByteString => 13,
            DefaultFunction::IndexByteString => 14,
            DefaultFunction::EqualsByteString => 15,
            DefaultFunction::LessThanByteString => 16,
            DefaultFunction::LessThanEqualsByteString => 17,
            DefaultFunction::Sha2_256 => 18,
            DefaultFunction::Sha3_256 => 19,
            DefaultFunction::Blake2b_256 => 20,
            DefaultFunction::VerifySignature => 21,
            DefaultFunction::AppendString => 22,
            DefaultFunction::EqualsString => 23,
            DefaultFunction::EncodeUtf8 => 24,
            DefaultFunction::DecodeUtf8 => 25,
            DefaultFunction::IfThenElse => 26,
            DefaultFunction::ChooseUnit => 27,
            DefaultFunction::Trace => 28,
            DefaultFunction::FstPair => 29,
            DefaultFunction::SndPair => 30,
            DefaultFunction::ChooseList => 31,
            DefaultFunction::MkCons => 32,
            DefaultFunction::HeadList => 33,
            DefaultFunction::TailList => 34,
            DefaultFunction::NullList => 35,
            DefaultFunction::ChooseData => 36,
            DefaultFunction::ConstrData => 37,
            DefaultFunction::MapData => 38,
            DefaultFunction::ListData => 39,
            DefaultFunction::IData => 40,
            DefaultFunction::BData => 41,
            DefaultFunction::UnConstrData => 42,
            DefaultFunction::UnMapData => 43,
            DefaultFunction::UnListData => 44,
            DefaultFunction::UnIData => 45,
            DefaultFunction::UnBData => 46,
            DefaultFunction::EqualsData => 47,
            DefaultFunction::MkPairData => 48,
            DefaultFunction::MkNilData => 49,
            DefaultFunction::MkNilPairData => 50,
        }
    }

    /// The builtin function with a given wire code, if any.
    pub open spec fn with_code(v: u8) -> Option<DefaultFunction> {
        if v == 0 {
            Some(DefaultFunction::AddInteger)
        } else if v == 1 {
            Some(DefaultFunction::SubtractInteger)
        } else if v == 2 {
            Some(DefaultFunction::MultiplyInteger)
        } else if v == 3 {
            Some(DefaultFunction::DivideInteger)
        } else if v == 4 {
            Some(DefaultFunction::QuotientInteger)
        } else if v == 5 {
            Some(DefaultFunction::RemainderInteger)
        } else if v == 6 {
            Some(DefaultFunction::ModInteger)
        } else if v == 7 {
            Some(DefaultFunction::EqualsInteger)
        } else if v == 8 {
            Some(DefaultFunction::LessThanInteger)
        } else if v == 9 {
            Some(DefaultFunction::LessThanEqualsInteger)
        } else if v == 10 {
            Some(DefaultFunction::AppendByteString)
        } else if v == 11 {
            Some(DefaultFunction::ConsByteString)
        } else if v == 12 {
            Some(DefaultFunction::SliceByteString)
        } else if v == 13 {
            Some(DefaultFunction::LengthOfByteString)
        } else if v == 14 {
            Some(DefaultFunction::IndexByteString)
        } else if v == 15 {
            Some(DefaultFunction::EqualsByteString)
        } else if v == 16 {
            Some(DefaultFunction::LessThanByteString)
        } else if v == 17 {
            Some(DefaultFunction::LessThanEqualsByteString)
        } else if v == 18 {
            Some(DefaultFunction::Sha2_256)
        } else if v == 19 {
            Some(DefaultFunction::Sha3_256)
        } else if v == 20 {
            Some(DefaultFunction::Blake2b_256)
        } else if v == 21 {
            Some(DefaultFunction::VerifySignature)
        } else if v == 22 {
            Some(DefaultFunction::AppendString)
        } else if v == 23 {
            Some(DefaultFunction::EqualsString)
        } else if v == 24 {
            Some(DefaultFunction::EncodeUtf8)
        } else if v == 25 {
            Some(DefaultFunction::DecodeUtf8)
        } else if v == 26 {
            Some(DefaultFunction::IfThenElse)
        } else if v == 27 {
            Some(DefaultFunction::ChooseUnit)
        } else if v == 28 {
            Some(DefaultFunction::Trace)
        } else if v == 29 {
            Some(DefaultFunction::FstPair)
        } else if v == 30 {
            Some(DefaultFunction::SndPair)
        } else if v == 31 {
            Some(DefaultFunction::ChooseList)
        } else if v == 32 {
            Some(DefaultFunction::MkCons)
        } else if v == 33 {
            Some(DefaultFunction::HeadList)
        } else if v == 34 {
            Some(DefaultFunction::TailList)
        } else if v == 35 {
            Some(DefaultFunction::NullList)
        } else if v == 36 {
            Some(DefaultFunction::ChooseData)
        } else if v == 37 {
            Some(DefaultFunction::ConstrData)
        } else if v == 38 {
            Some(DefaultFunction::MapData)
        } else if v == 39 {
            Some(DefaultFunction::ListData)
        } else if v == 40 {
            Some(DefaultFunction::IData)
        } else if v == 41 {
            Some(DefaultFunction::BData)
        } else if v == 42 {
            Some(DefaultFunction::UnConstrData)
        } else if v == 43 {
            Some(DefaultFunction::UnMapData)
        } else if v == 44 {
            Some(DefaultFunction::UnListData)
        } else if v == 45 {
            Some(DefaultFunction::UnIData)
        } else if v == 46 {
            Some(DefaultFunction::UnBData)
        } else if v == 47 {
            Some(DefaultFunction::EqualsData)
        } else if v == 48 {
            Some(DefaultFunction::MkPairData)
        } else if v == 49 {
            Some(DefaultFunction::MkNilData)
        } else if v == 50 {
            Some(DefaultFunction::MkNilPairData)
        } else {
            None
        }
    }

    pub fn to_code(&self) -> (r: u8)
        ensures
            r == self.code(),
    {
        match self {
            DefaultFunction::AddInteger => 0,
            DefaultFunction::SubtractInteger => 1,
            DefaultFunction::MultiplyInteger => 2,
            DefaultFunction::DivideInteger => 3,
            DefaultFunction::QuotientInteger => 4,
            DefaultFunction::RemainderInteger => 5,
            DefaultFunction::ModInteger => 6,
            DefaultFunction::EqualsInteger => 7,
            DefaultFunction::LessThanInteger => 8,
            DefaultFunction::LessThanEqualsInteger => 9,
            DefaultFunction::AppendByteString => 10,
            DefaultFunction::ConsByteString => 11,
            DefaultFunction::SliceByteString => 12,
            DefaultFunction::LengthOfByteString => 13,
            DefaultFunction::IndexByteString => 14,
            DefaultFunction::EqualsByteString => 15,
            DefaultFunction::LessThanByteString => 16,
            DefaultFunction::LessThanEqualsByteString => 17,
            DefaultFunction::Sha2_256 => 18,
            DefaultFunction::Sha3_256 => 19,
            DefaultFunction::Blake2b_256 => 20,
            DefaultFunction::VerifySignature => 21,
            DefaultFunction::AppendString => 22,
            DefaultFunction::EqualsString => 23,
            DefaultFunction::EncodeUtf8 => 24,
            DefaultFunction::DecodeUtf8 => 25,
            DefaultFunction::IfThenElse => 26,
            DefaultFunction::ChooseUnit => 27,
            DefaultFunction::Trace => 28,
            DefaultFunction::FstPair => 29,
            DefaultFunction::SndPair => 30,
            DefaultFunction::ChooseList => 31,
            DefaultFunction::MkCons => 32,
            DefaultFunction::HeadList => 33,
            DefaultFunction::TailList => 34,
            DefaultFunction::NullList => 35,
            DefaultFunction::ChooseData => 36,
            DefaultFunction::ConstrData => 37,
            DefaultFunction::MapData => 38,
            DefaultFunction::ListData => 39,
            DefaultFunction::IData => 40,
            DefaultFunction::BData => 41,
            DefaultFunction::UnConstrData => 42,
            DefaultFunction::UnMapData => 43,
            DefaultFunction::UnListData => 44,
            DefaultFunction::UnIData => 45,
            DefaultFunction::UnBData => 46,
            DefaultFunction::EqualsData => 47,
            DefaultFunction::MkPairData => 48,
            DefaultFunction::MkNilData => 49,
            DefaultFunction::MkNilPairData => 50,
        }
    }

    pub fn from_code(v: u8) -> (r: Option<DefaultFunction>)
        ensures
            r == DefaultFunction::with_code(v),
    {
        match v {
            0 => Some(DefaultFunction::AddInteger),
            1 => Some(DefaultFunction::SubtractInteger),
            2 => Some(DefaultFunction::MultiplyInteger),
            3 => Some(DefaultFunction::DivideInteger),
            4 => Some(DefaultFunction::QuotientInteger),
            5 => Some(DefaultFunction::RemainderInteger),
            6 => Some(DefaultFunction::ModInteger),
            7 => Some(DefaultFunction::EqualsInteger),
            8 => Some(DefaultFunction::LessThanInteger),
            9 => Some(DefaultFunction::LessThanEqualsInteger),
            10 => Some(DefaultFunction::AppendByteString),
            11 => Some(DefaultFunction::ConsByteString),
            12 => Some(DefaultFunction::SliceByteString),
            13 => Some(DefaultFunction::LengthOfByteString),
            14 => Some(DefaultFunction::IndexByteString),
            15 => Some(DefaultFunction::EqualsByteString),
            16 => Some(DefaultFunction::LessThanByteString),
            17 => Some(DefaultFunction::LessThanEqualsByteString),
            18 => Some(DefaultFunction::Sha2_256),
            19 => Some(DefaultFunction::Sha3_256),
            20 => Some(DefaultFunction::Blake2b_256),
            21 => Some(DefaultFunction::VerifySignature),
            22 => Some(DefaultFunction::AppendString),
            23 => Some(DefaultFunction::EqualsString),
            24 => Some(DefaultFunction::EncodeUtf8),
            25 => Some(DefaultFunction::DecodeUtf8),
            26 => Some(DefaultFunction::IfThenElse),
            27 => Some(DefaultFunction::ChooseUnit),
            28 => Some(DefaultFunction::Trace),
            29 => Some(DefaultFunction::FstPair),
            30 => Some(DefaultFunction::SndPair),
            31 => Some(DefaultFunction::ChooseList),
            32 => Some(DefaultFunction::MkCons),
            33 => Some(DefaultFunction::HeadList),
            34 => Some(DefaultFunction::TailList),
            35 => Some(DefaultFunction::NullList),
            36 => Some(DefaultFunction::ChooseData),
            37 => Some(DefaultFunction::ConstrData),
            38 => Some(DefaultFunction::MapData),
            39 => Some(DefaultFunction::ListData),
            40 => Some(DefaultFunction::IData),
            41 => Some(DefaultFunction::BData),
            42 => Some(DefaultFunction::UnConstrData),
            43 => Some(DefaultFunction::UnMapData),
            44 => Some(DefaultFunction::UnListData),
            45 => Some(DefaultFunction::UnIData),
            46 => Some(DefaultFunction::UnBData),
            47 => Some(DefaultFunction::EqualsData),
            48 => Some(DefaultFunction::MkPairData),
            49 => Some(DefaultFunction::MkNilData),
            50 => Some(DefaultFunction::MkNilPairData),
            _ => None,
        }
    }
}

/// Every builtin function comes back from its code, and the codes are exactly `0..BUILTIN_COUNT`.
pub proof fn lemma_code_round_trip(f: DefaultFunction, v: u8)
    ensures
        DefaultFunction::with_code(f.code()) == Some(f),
        f.code() < BUILTIN_COUNT,
        DefaultFunction::with_code(v) is Some <==> v < BUILTIN_COUNT,
        DefaultFunction::with_code(v) matches Some(g) ==> g.code() == v,
{
}

} // verus!
