use vstd::prelude::*;

use crate::error::Error;

verus! {

/// The selection strategies a deployment can configure.
#[derive(Clone, Copy, Debug, PartialEq, Eq, Structural)]
pub enum SelectorType {
    LoadBased,
    LeaseBased,
}

/// The strategy a configuration string names, if any. Names are
/// case-sensitive.
pub open spec fn parse_selector_type(s: Seq<char>) -> Option<SelectorType> {
    if s == "LoadBased"@ {
        Some(SelectorType::LoadBased)
    } else if s == "LeaseBased"@ {
        Some(SelectorType::LeaseBased)
    } else {
        None
    }
}

/// The canonical configuration string of a strategy.
pub open spec fn selector_type_name(t: SelectorType) -> Seq<char> {
    match t {
        SelectorType::LoadBased => "LoadBased"@,
        SelectorType::LeaseBased => "LeaseBased"@,
    }
}

impl SelectorType {
    /// Reads a strategy from its configuration string; any other string is
    /// refused with `UnsupportedSelectorType` carrying it.
    pub fn parse(value: &str) -> (r: Result<SelectorType, Error>)
        ensures
            match parse_selector_type(value@) {
                Some(t) => r == Ok::<SelectorType, Error>(t),
                None => r matches Err(Error::UnsupportedSelectorType { selector_type })
                    && selector_type@ == value@,
            },
    {
        let owned = value.to_owned();
        if owned == "LoadBased".to_owned() {
            Ok(SelectorType::LoadBased)
        } else if owned == "LeaseBased".to_owned() {
            Ok(SelectorType::LeaseBased)
        } else {
            Err(Error::UnsupportedSelectorType { selector_type: owned })
        }
    }

    /// The canonical configuration string of this strategy.
    pub fn as_str(&self) -> (r: &'static str)
        ensures
            r@ == selector_type_name(*self),
    {
        match self {
            SelectorType::LoadBased => "LoadBased",
            SelectorType::LeaseBased => "LeaseBased",
        }
    }

    /// The strategy used when the configuration names none.
    pub fn from_config(value: Option<&str>) -> (r: Result<SelectorType, Error>)
        ensures
            match value {
                None => r == Ok::<SelectorType, Error>(SelectorType::LeaseBased),
                Some(v) => match parse_selector_type(v@) {
                    Some(t) => r == Ok::<SelectorType, Error>(t),
                    None => r matches Err(Error::UnsupportedSelectorType { selector_type })
                        && selector_type@ == v@,
                },
            },
    {
        match value {
            None => Ok(SelectorType::default()),
            Some(v) => SelectorType::parse(v),
        }
    }
}

impl Default for SelectorType {
    fn default() -> (r: SelectorType)
        ensures
            r == SelectorType::LeaseBased,
    {
        SelectorType::LeaseBased
    }
}

/// Conversion from a configuration string: the two canonical names give
/// their strategy, any other string is refused with `UnsupportedSelectorType`
/// carrying it.
impl<'a> TryFrom<&'a str> for SelectorType {
    type Error = Error;

    fn try_from(value: &'a str) -> (r: Result<SelectorType, Error>)
        ensures
            match parse_selector_type(value@) {
                Some(t) => r == Ok::<SelectorType, Error>(t),
                None => r matches Err(Error::UnsupportedSelectorType { selector_type })
                    && selector_type@ == value@,
            },
    {
        SelectorType::parse(value)
    }
}

/// The error of a refused string holds a `String` built by the call, and
/// spec equality of two `String`s does not follow from equal contents, so
/// `try_from` does not promise equality with this value; its own `ensures`
/// states the result instead.
impl<'a> vstd::std_specs::convert::TryFromSpecImpl<&'a str> for SelectorType {
    open spec fn obeys_try_from_spec() -> bool {
        false
    }

    open spec fn try_from_spec(v: &'a str) -> Result<SelectorType, Error> {
        match parse_selector_type(v@) {
            Some(t) => Ok(t),
            None => Err(
                Error::UnsupportedSelectorType { selector_type: choose|s: String| s@ == v@ },
            ),
        }
    }
}

/// Each strategy's canonical string reads back as that strategy, and the two
/// names differ.
pub proof fn lemma_selector_type_round_trip(t: SelectorType)
    ensures
        parse_selector_type(selector_type_name(t)) == Some(t),
{
    reveal_strlit("LoadBased");
    reveal_strlit("LeaseBased");
    assert("LoadBased"@ != "LeaseBased"@) by {
        assert("LoadBased"@[1] != "LeaseBased"@[1]);
    }
}

/// A string that is neither canonical name is refused.
pub proof fn lemma_other_strings_refused(s: Seq<char>)
    requires
        s != "LoadBased"@,
        s != "LeaseBased"@,
    ensures
        parse_selector_type(s) is None,
{
}

} // verus!
