use meta_select::{AnySelector, Error, SelectorType};

#[test]
fn test_default_selector_type() {
    assert_eq!(SelectorType::LeaseBased, SelectorType::default());
}

#[test]
fn test_convert_str_to_selector_type() {
    let leasebased = "LeaseBased";
    let selector_type = leasebased.try_into().unwrap();
    assert_eq!(SelectorType::LeaseBased, selector_type);

    let loadbased = "LoadBased";
    let selector_type = loadbased.try_into().unwrap();
    assert_eq!(SelectorType::LoadBased, selector_type);

    let unknow = "unknow";
    let selector_type: Result<SelectorType, Error> = unknow.try_into();
    assert!(selector_type.is_err());
}

#[test]
fn selector_type_names_round_trip() {
    for t in [SelectorType::LeaseBased, SelectorType::LoadBased] {
        assert_eq!(SelectorType::parse(t.as_str()).unwrap(), t);
    }
    assert_eq!(SelectorType::LeaseBased.as_str(), "LeaseBased");
    assert_eq!(SelectorType::LoadBased.as_str(), "LoadBased");
}

#[test]
fn unsupported_selector_type_carries_the_string() {
    match SelectorType::parse("loadbased") {
        Err(Error::UnsupportedSelectorType { selector_type }) => {
            assert_eq!(selector_type, "loadbased")
        }
        other => panic!("unexpected {:?}", other),
    }
    assert!(matches!(
        SelectorType::parse(""),
        Err(Error::UnsupportedSelectorType { .. })
    ));
}

#[test]
fn omitted_configuration_is_lease_based() {
    assert_eq!(SelectorType::from_config(None).unwrap(), SelectorType::LeaseBased);
    assert_eq!(
        SelectorType::from_config(Some("LoadBased")).unwrap(),
        SelectorType::LoadBased
    );
    assert!(SelectorType::from_config(Some("Random")).is_err());
}

#[test]
fn factory_builds_the_configured_strategy() {
    let s = AnySelector::from(SelectorType::LoadBased);
    assert_eq!(s.selector_type(), SelectorType::LoadBased);
    let s = AnySelector::from(SelectorType::LeaseBased);
    assert_eq!(s.selector_type(), SelectorType::LeaseBased);
}

#[test]
fn conversion_refuses_other_spellings() {
    for s in ["leasebased", "LOADBASED", "loadBased", ""] {
        let r: Result<SelectorType, Error> = s.try_into();
        match r {
            Err(Error::UnsupportedSelectorType { selector_type }) => assert_eq!(selector_type, s),
            other => panic!("unexpected {:?}", other),
        }
    }
    for t in [SelectorType::LeaseBased, SelectorType::LoadBased] {
        let back: SelectorType = t.as_str().try_into().unwrap();
        assert_eq!(back, t);
    }
}
