use asn_prefixes::asn::validate_asn;
use asn_prefixes::ipv4::is_ipv4_cidr;
use asn_prefixes::ipv6::is_ipv6_cidr;
use asn_prefixes::PipelineError;

#[test]
fn asn_accepts_valid_tokens() {
    assert_eq!(validate_asn("AS1").unwrap(), "AS1");
    assert_eq!(validate_asn("AS999999").unwrap(), "AS999999");
    assert_eq!(validate_asn("AS13335").unwrap(), "AS13335");
}

#[test]
fn asn_normalizes_case_and_whitespace() {
    assert_eq!(validate_asn(" as12345 ").unwrap(), "AS12345");
    assert_eq!(validate_asn("aS7\n").unwrap(), "AS7");
    assert_eq!(validate_asn("\tAs42").unwrap(), "AS42");
}

#[test]
fn asn_trims_unicode_whitespace() {
    assert_eq!(validate_asn("\u{3000}as5\u{00A0}").unwrap(), "AS5");
}

#[test]
fn asn_rejects_invalid_tokens() {
    assert!(matches!(validate_asn("AS0"), Err(PipelineError::InvalidAsn)));
    assert!(matches!(validate_asn("ASX"), Err(PipelineError::InvalidAsn)));
    assert!(matches!(validate_asn("1234"), Err(PipelineError::InvalidAsn)));
    assert!(matches!(validate_asn("AS1234567"), Err(PipelineError::InvalidAsn)));
    assert!(matches!(validate_asn(""), Err(PipelineError::InvalidAsn)));
    assert!(matches!(validate_asn("AS"), Err(PipelineError::InvalidAsn)));
    assert!(matches!(validate_asn("AS 1"), Err(PipelineError::InvalidAsn)));
    assert!(matches!(validate_asn("AS01"), Err(PipelineError::InvalidAsn)));
}

#[test]
fn ipv4_accepts_dotted_quads_with_prefix() {
    assert!(is_ipv4_cidr("192.0.2.0/24"));
    assert!(is_ipv4_cidr("1.2.3.4/5"));
    assert!(is_ipv4_cidr("10.0.0.0/8"));
}

#[test]
fn ipv4_grammar_is_lax_about_ranges() {
    assert!(is_ipv4_cidr("999.999.999.999/99"));
    assert!(is_ipv4_cidr("256.256.256.256/00"));
}

#[test]
fn ipv4_rejects_malformed_tokens() {
    assert!(!is_ipv4_cidr("1.2.3/4"));
    assert!(!is_ipv4_cidr("1.2.3.4"));
    assert!(!is_ipv4_cidr("1.2.3.4/999"));
    assert!(!is_ipv4_cidr("1.2.3.4/"));
    assert!(!is_ipv4_cidr("a.b.c.d/24"));
    assert!(!is_ipv4_cidr("1.2.3.4.5/6"));
    assert!(!is_ipv4_cidr("1.2.3.4 /24"));
    assert!(!is_ipv4_cidr(""));
}

#[test]
fn ipv6_accepts_full_form() {
    assert!(is_ipv6_cidr("2001:0db8:85a3:0000:0000:8a2e:0370:7334"));
    assert!(is_ipv6_cidr("2001:0db8:85a3:0000:0000:8a2e:0370:7334/128"));
    assert!(is_ipv6_cidr("1:2:3:4:5:6:7:8/64"));
}

#[test]
fn ipv6_accepts_compressed_forms() {
    assert!(is_ipv6_cidr("2001:db8::/32"));
    assert!(is_ipv6_cidr("::1"));
    assert!(is_ipv6_cidr("::"));
    assert!(is_ipv6_cidr("::/0"));
    assert!(is_ipv6_cidr("1::"));
    assert!(is_ipv6_cidr("1:2:3:4:5:6:7::"));
    assert!(is_ipv6_cidr("::1:2:3:4:5:6:7"));
    assert!(is_ipv6_cidr("1::8/48"));
}

#[test]
fn ipv6_accepts_zone_index_form() {
    assert!(is_ipv6_cidr("fe80::1%eth0"));
    assert!(is_ipv6_cidr("fe80::1%eth0/64"));
    assert!(is_ipv6_cidr("fe80::%25"));
}

#[test]
fn ipv6_accepts_embedded_ipv4_forms() {
    assert!(is_ipv6_cidr("::ffff:192.0.2.128"));
    assert!(is_ipv6_cidr("::ffff:192.0.2.128/96"));
    assert!(is_ipv6_cidr("::192.0.2.1"));
    assert!(is_ipv6_cidr("::ffff:0:255.255.255.255"));
    assert!(is_ipv6_cidr("1:2:3:4::5.6.7.8"));
}

#[test]
fn ipv6_rejects_malformed_tokens() {
    assert!(!is_ipv6_cidr(":::"));
    assert!(!is_ipv6_cidr("1::2::3"));
    assert!(!is_ipv6_cidr("12345::"));
    assert!(!is_ipv6_cidr("gggg::"));
    assert!(!is_ipv6_cidr("1:2:3:4:5:6:7:8:9"));
    assert!(!is_ipv6_cidr("1:2:3:4:5:6:7"));
    assert!(!is_ipv6_cidr("2001:db8::/129"));
    assert!(!is_ipv6_cidr("2001:db8::/012"));
    assert!(!is_ipv6_cidr("2001:db8::/1281"));
    assert!(!is_ipv6_cidr("::ffff:256.0.0.1"));
    assert!(!is_ipv6_cidr("1.2.3.4"));
    assert!(!is_ipv6_cidr(""));
    assert!(!is_ipv6_cidr("fe80::1%"));
    assert!(!is_ipv6_cidr("%eth0"));
}

#[test]
fn ipv6_prefix_bounds() {
    assert!(is_ipv6_cidr("::/128"));
    assert!(is_ipv6_cidr("::/99"));
    assert!(is_ipv6_cidr("::/100"));
    assert!(is_ipv6_cidr("::/119"));
    assert!(is_ipv6_cidr("::/120"));
    assert!(!is_ipv6_cidr("::/00"));
}
