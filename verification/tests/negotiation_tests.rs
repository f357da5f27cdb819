use blogcore::negotiation::Negotiation;

#[test]
fn test_parse() {
    let negotiation = Negotiation::parse("gzip;q=1.0, identity; q=0.5, *;q=0".to_string());
    assert_eq!(negotiation.params.len(), 3);
    assert_eq!(negotiation.params[0].name, "gzip");
    assert_eq!(negotiation.params[0].q, 1000);
    assert_eq!(negotiation.params[1].name, "identity");
    assert_eq!(negotiation.params[1].q, 500);
    assert_eq!(negotiation.params[2].name, "*");
    assert_eq!(negotiation.params[2].q, 0);
}

#[test]
fn parse_defaults_missing_or_malformed_quality_to_one() {
    let negotiation = Negotiation::parse("br, deflate;q=abc".to_string());
    assert_eq!(negotiation.params.len(), 2);
    assert_eq!(negotiation.params[0].name, "br");
    assert_eq!(negotiation.params[0].q, 1000);
    assert_eq!(negotiation.params[1].name, "deflate");
    assert_eq!(negotiation.params[1].q, 1000);
}

#[test]
fn best_picks_highest_quality_available() {
    let negotiation = Negotiation::parse("gzip;q=1.0, identity; q=0.5, *;q=0".to_string());
    assert_eq!(negotiation.best(&["gzip", "identity"]), Some(&"gzip".to_string()));
    assert_eq!(negotiation.best(&["identity"]), Some(&"identity".to_string()));
    assert_eq!(negotiation.best(&["*"]), None);
}

#[test]
fn best_breaks_ties_in_header_order() {
    let negotiation = Negotiation::parse("deflate;q=0.8, gzip;q=0.8".to_string());
    assert_eq!(negotiation.best(&["gzip", "deflate"]), Some(&"deflate".to_string()));
}

#[test]
fn best_returns_none_when_nothing_is_available() {
    let negotiation = Negotiation::parse("br;q=0.9".to_string());
    assert_eq!(negotiation.best(&["gzip", "deflate"]), None);
}

#[test]
fn parse_empty_header_yields_one_empty_token() {
    let negotiation = Negotiation::parse("".to_string());
    assert_eq!(negotiation.params.len(), 1);
    assert_eq!(negotiation.params[0].name, "");
    assert_eq!(negotiation.params[0].q, 1000);
}

#[test]
fn best_with_no_available_tokens_is_none() {
    let negotiation = Negotiation::parse("gzip, deflate".to_string());
    assert_eq!(negotiation.best(&[]), None);
}

#[test]
fn parse_clamps_weights_into_the_modeled_range() {
    let negotiation = Negotiation::parse("gzip;q=0.125, br;q=+0.5, x;q=-1".to_string());
    assert_eq!(negotiation.params[0].q, 125);
    assert_eq!(negotiation.params[1].q, 500);
    assert_eq!(negotiation.params[2].q, 0);
}
