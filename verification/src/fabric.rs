//! Identities of the drainage fabric.
//!
//! Drainage units, snap features, levels and stem roles come from an HFX
//! dataset. The `hfx` crate decides which raw values are valid; the types here
//! hold the values it accepted.
use vstd::prelude::*;

verus! {

/// Why a raw identifier is no identifier.
#[derive(Clone, Copy, Debug, PartialEq, Eq, Structural)]
pub enum IdError {
    /// The identifier is zero, which the HFX format reserves.
    ZeroId,
    /// The identifier is negative.
    NegativeId {
        /// The raw value.
        value: i64,
    },
}

/// Why a raw level is no level.
#[derive(Clone, Copy, Debug, PartialEq, Eq, Structural)]
pub enum LevelError {
    /// The level is negative.
    Negative {
        /// The raw value.
        value: i16,
    },
}

/// What the HFX format answers on a raw identifier.
pub open spec fn checked_id(raw: i64) -> Result<i64, IdError> {
    if raw > 0 {
        Ok(raw)
    } else if raw == 0 {
        Err(IdError::ZeroId)
    } else {
        Err(IdError::NegativeId { value: raw })
    }
}

/// What the HFX format answers on a raw level.
pub open spec fn checked_level(raw: i16) -> Result<i16, LevelError> {
    if raw >= 0 {
        Ok(raw)
    } else {
        Err(LevelError::Negative { value: raw })
    }
}

/// `hfx::UnitId::new`: accepts exactly the positive values, keeps the value it
/// accepts, and tells zero from a negative value.
#[verifier::external_body]
fn hfx_unit_id(raw: i64) -> (r: Result<i64, IdError>)
    ensures
        r == checked_id(raw),
{
    match hfx::UnitId::new(raw) {
        Ok(id) => Ok(id.get()),
        Err(hfx::IdError::ZeroId) => Err(IdError::ZeroId),
        Err(hfx::IdError::NegativeId { value }) => Err(IdError::NegativeId { value }),
    }
}

/// `hfx::SnapId::new`: accepts exactly the positive values, keeps the value it
/// accepts, and tells zero from a negative value.
#[verifier::external_body]
fn hfx_snap_id(raw: i64) -> (r: Result<i64, IdError>)
    ensures
        r == checked_id(raw),
{
    match hfx::SnapId::new(raw) {
        Ok(id) => Ok(id.get()),
        Err(hfx::IdError::ZeroId) => Err(IdError::ZeroId),
        Err(hfx::IdError::NegativeId { value }) => Err(IdError::NegativeId { value }),
    }
}

/// `hfx::Level::new`: accepts exactly the values that are not negative, and
/// keeps the value it accepts.
#[verifier::external_body]
fn hfx_level(raw: i16) -> (r: Result<i16, LevelError>)
    ensures
        r == checked_level(raw),
{
    match hfx::Level::new(raw) {
        Ok(level) => Ok(level.get()),
        Err(hfx::LevelError::Negative { value }) => Err(LevelError::Negative { value }),
    }
}

/// `to_string` of `hfx::StemRole`: the role's name in lower case.
#[verifier::external_body]
fn hfx_stem_role_name(role: StemRole) -> (r: String)
    ensures
        r@ == role.spec_name(),
{
    let role = match role {
        StemRole::Mainstem => hfx::StemRole::Mainstem,
        StemRole::Tributary => hfx::StemRole::Tributary,
        StemRole::Distributary => hfx::StemRole::Distributary,
        StemRole::Unknown => hfx::StemRole::Unknown,
    };
    role.to_string()
}

/// Identifier of a drainage unit: a positive number.
#[derive(Clone, Copy, Debug, PartialEq, Eq, Structural)]
pub struct UnitId {
    raw: i64,
}

impl View for UnitId {
    type V = i64;

    closed spec fn view(&self) -> i64 {
        self.raw
    }
}

impl UnitId {
    #[verifier::type_invariant]
    spec fn valid(self) -> bool {
        self.raw > 0
    }

    /// The identifier with the raw value `raw`.
    pub fn new(raw: i64) -> (r: Result<Self, IdError>)
        ensures
            match r {
                Ok(id) => checked_id(raw) == Ok::<i64, IdError>(id@),
                Err(e) => checked_id(raw) == Err::<i64, IdError>(e),
            },
    {
        match hfx_unit_id(raw) {
            Ok(raw) => Ok(UnitId { raw }),
            Err(e) => Err(e),
        }
    }

    pub fn get(self) -> (r: i64)
        ensures
            r == self@,
            r > 0,
    {
        proof {
            use_type_invariant(&self);
        }
        self.raw
    }

    /// Identifiers with the same raw value are the same.
    pub proof fn law_identified_by_value(a: Self, b: Self)
        ensures
            a == b <==> a@ == b@,
    {
    }
}

/// Identifier of a snap feature: a positive number.
#[derive(Clone, Copy, Debug, PartialEq, Eq, Structural)]
pub struct SnapId {
    raw: i64,
}

impl View for SnapId {
    type V = i64;

    closed spec fn view(&self) -> i64 {
        self.raw
    }
}

impl SnapId {
    #[verifier::type_invariant]
    spec fn valid(self) -> bool {
        self.raw > 0
    }

    /// The identifier with the raw value `raw`.
    pub fn new(raw: i64) -> (r: Result<Self, IdError>)
        ensures
            match r {
                Ok(id) => checked_id(raw) == Ok::<i64, IdError>(id@),
                Err(e) => checked_id(raw) == Err::<i64, IdError>(e),
            },
    {
        match hfx_snap_id(raw) {
            Ok(raw) => Ok(SnapId { raw }),
            Err(e) => Err(e),
        }
    }

    pub fn get(self) -> (r: i64)
        ensures
            r == self@,
            r > 0,
    {
        proof {
            use_type_invariant(&self);
        }
        self.raw
    }
}

/// A resolution tier of the dataset: a number that is not negative.
#[derive(Clone, Copy, Debug, PartialEq, Eq, Structural)]
pub struct Level {
    raw: i16,
}

impl View for Level {
    type V = i16;

    closed spec fn view(&self) -> i16 {
        self.raw
    }
}

impl Level {
    #[verifier::type_invariant]
    spec fn valid(self) -> bool {
        self.raw >= 0
    }

    /// The level with the raw value `raw`.
    pub fn new(raw: i16) -> (r: Result<Self, LevelError>)
        ensures
            match r {
                Ok(level) => checked_level(raw) == Ok::<i16, LevelError>(level@),
                Err(e) => checked_level(raw) == Err::<i16, LevelError>(e),
            },
    {
        match hfx_level(raw) {
            Ok(raw) => Ok(Level { raw }),
            Err(e) => Err(e),
        }
    }

    pub fn get(self) -> (r: i16)
        ensures
            r == self@,
            r >= 0,
    {
        proof {
            use_type_invariant(&self);
        }
        self.raw
    }
}

/// The place of a reach in the channel network, as the fabric declares it.
#[derive(Clone, Copy, Debug, PartialEq, Eq, Structural)]
pub enum StemRole {
    /// The main channel.
    Mainstem,
    /// A channel that joins another.
    Tributary,
    /// A channel that leaves another at a bifurcation.
    Distributary,
    /// The producer does not know the role.
    Unknown,
}

impl StemRole {
    pub open spec fn spec_name(self) -> Seq<char> {
        match self {
            StemRole::Mainstem => "mainstem"@,
            StemRole::Tributary => "tributary"@,
            StemRole::Distributary => "distributary"@,
            StemRole::Unknown => "unknown"@,
        }
    }

    /// The role's name, as datasets and replies spell it.
    pub fn name(self) -> (r: String)
        ensures
            r@ == self.spec_name(),
    {
        hfx_stem_role_name(self)
    }
}

/// An identifier is accepted exactly where it is positive, and a level exactly where
/// it is not negative; what is accepted is kept, and what is refused is told.
pub proof fn law_accepted_values_are_kept(raw: i64, level: i16)
    ensures
        checked_id(raw) is Ok <==> raw > 0,
        checked_id(raw) is Ok ==> checked_id(raw)->Ok_0 == raw,
        checked_id(raw) == Err::<i64, IdError>(IdError::ZeroId) <==> raw == 0,
        raw < 0 ==> checked_id(raw) == Err::<i64, IdError>(IdError::NegativeId { value: raw }),
        checked_level(level) is Ok <==> level >= 0,
        checked_level(level) is Ok ==> checked_level(level)->Ok_0 == level,
        level < 0 ==> checked_level(level) == Err::<i16, LevelError>(
            LevelError::Negative { value: level },
        ),
{
}

/// No two roles have the same name.
pub proof fn law_roles_are_told_apart(a: StemRole, b: StemRole)
    ensures
        a.spec_name() == b.spec_name() <==> a == b,
{
    reveal_strlit("mainstem");
    reveal_strlit("tributary");
    reveal_strlit("distributary");
    reveal_strlit("unknown");
    assert("mainstem"@.len() == 8);
    assert("tributary"@.len() == 9);
    assert("distributary"@.len() == 12);
    assert("unknown"@.len() == 7);
}

} // verus!
