//! Structural constants of each supported engine build, looked up by the
//! serial number that a dump carries.
use vstd::prelude::*;
use crate::base::MAX_USV;

verus! {

/// The one engine build whose dumps are understood.
pub const LATEST_VERSION: i32 = 33;

/// Constants that fix the layout of a dump.
#[derive(Debug, Clone, Copy, PartialEq, Eq, Structural)]
pub struct EngineSettings {
    pub mem_top: i32,
    pub eqtb_size: i32,
    /// Last entry of the equivalences table, extra hash room included.
    pub eqtb_top: i32,
    pub hash_prime: i32,
    pub hash_base: i32,
    pub prim_size: i32,
    pub max_fonts: i32,
    pub active_base: i32,
    pub cat_code_base: i32,
    /// Command code of an entry that holds no definition.
    pub undefined_cs_command: u16,
}

impl EngineSettings {
    /// Constants that leave room for the tables they describe.
    pub open spec fn wf(&self) -> bool {
        &&& 0 <= self.mem_top < 0x7FFF_FFFF
        &&& 0 <= self.hash_base <= self.eqtb_size <= self.eqtb_top < 0x7FFF_FFFF
        &&& 0 <= self.prim_size < 0x7FFF_FFFF
        &&& 0 <= self.max_fonts
        &&& 0 <= self.active_base && self.active_base + MAX_USV <= self.eqtb_size + 1
        &&& 0 <= self.cat_code_base && self.cat_code_base + MAX_USV <= self.eqtb_size + 1
    }
}

/// The layout of engine version 33.
pub open spec fn settings_v33() -> EngineSettings {
    EngineSettings {
        mem_top: 4999999,
        eqtb_size: 8941458,
        eqtb_top: 9541458,
        hash_prime: 8501,
        hash_base: 2228226,
        prim_size: 500,
        max_fonts: 9000,
        active_base: 1,
        cat_code_base: 2254359,
        undefined_cs_command: 103,
    }
}

/// The constants of the build with this serial number, if known.
pub open spec fn settings_for(serial: int) -> Option<EngineSettings> {
    if serial == LATEST_VERSION {
        Some(settings_v33())
    } else {
        None
    }
}

/// The engine whose dump is being read.
#[derive(Debug, Clone, Copy)]
pub struct Engine {
    pub version: i32,
    pub settings: EngineSettings,
}

impl Engine {
    /// Looks up the constants for `serial`.
    pub fn new_for_version(serial: i32) -> (r: Option<Engine>)
        ensures
            match r {
                Some(e) => settings_for(serial as int) == Some(e.settings) && e.version == serial && e.settings.wf(),
                None => settings_for(serial as int).is_none(),
            },
    {
        if serial == LATEST_VERSION {
            let settings = EngineSettings {
                mem_top: 4999999,
                eqtb_size: 8941458,
                eqtb_top: 9541458,
                hash_prime: 8501,
                hash_base: 2228226,
                prim_size: 500,
                max_fonts: 9000,
                active_base: 1,
                cat_code_base: 2254359,
                undefined_cs_command: 103,
            };
            Some(Engine { version: serial, settings })
        } else {
            None
        }
    }
}

/// The lexical class of a character.
#[derive(Debug, Clone, Copy, PartialEq, Eq, Structural)]
pub enum CatCode {
    Escape,
    BeginGroup,
    EndGroup,
    MathShift,
    AlignmentTab,
    EndOfLine,
    MacroParameter,
    Superscript,
    Subscript,
    Ignored,
    Space,
    Letter,
    Other,
    Active,
    Comment,
    Invalid,
}

impl CatCode {
    /// The class with code `n`, for `n` in `[0, 15]`.
    pub fn from_i32(n: i32) -> (r: Option<CatCode>)
        ensures
            r.is_some() <==> 0 <= n <= 15,
            r.is_some() ==> r.unwrap().code() == n,
    {
        match n {
            0 => Some(CatCode::Escape),
            1 => Some(CatCode::BeginGroup),
            2 => Some(CatCode::EndGroup),
            3 => Some(CatCode::MathShift),
            4 => Some(CatCode::AlignmentTab),
            5 => Some(CatCode::EndOfLine),
            6 => Some(CatCode::MacroParameter),
            7 => Some(CatCode::Superscript),
            8 => Some(CatCode::Subscript),
            9 => Some(CatCode::Ignored),
            10 => Some(CatCode::Space),
            11 => Some(CatCode::Letter),
            12 => Some(CatCode::Other),
            13 => Some(CatCode::Active),
            14 => Some(CatCode::Comment),
            15 => Some(CatCode::Invalid),
            _ => None,
        }
    }

    pub open spec fn code(&self) -> int {
        match self {
            CatCode::Escape => 0,
            CatCode::BeginGroup => 1,
            CatCode::EndGroup => 2,
            CatCode::MathShift => 3,
            CatCode::AlignmentTab => 4,
            CatCode::EndOfLine => 5,
            CatCode::MacroParameter => 6,
            CatCode::Superscript => 7,
            CatCode::Subscript => 8,
            CatCode::Ignored => 9,
            CatCode::Space => 10,
            CatCode::Letter => 11,
            CatCode::Other => 12,
            CatCode::Active => 13,
            CatCode::Comment => 14,
            CatCode::Invalid => 15,
        }
    }
}

} // verus!
