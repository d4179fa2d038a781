use ip_heatmap::scale::{DomainType, ScaleDomain};
use ip_heatmap::ConfigError;

#[test]
fn test_domain_rejects_collapsed_bounds() {
    assert!(matches!(
        ScaleDomain::new(DomainType::Linear, 5, 5),
        Err(ConfigError::InvalidDomainBounds)
    ));
    assert!(matches!(
        ScaleDomain::new(DomainType::Logarithmic, 7, 3),
        Err(ConfigError::InvalidDomainBounds)
    ));
    assert!(ScaleDomain::new(DomainType::Linear, 0, 1).is_ok());
}

#[test]
fn test_scale_boundaries() {
    let dom = ScaleDomain::new(DomainType::Linear, 0, 10).unwrap();
    // The minimum itself has no value.
    assert!(dom.scale(0).is_none());
    assert!(dom.scale(-5).is_none());
    // The maximum scales to the full width: intensity 1.0.
    let top = dom.scale(10).unwrap();
    assert_eq!(top.num, top.den);
    assert_eq!(top.den, 10);
    // Values past the maximum are pinned to the top.
    let over = dom.scale(99).unwrap();
    assert_eq!(over.num, over.den);
}

#[test]
fn test_scale_linear_interior() {
    let dom = ScaleDomain::new(DomainType::Linear, 0, 10).unwrap();
    let p = dom.scale_linear(3).unwrap();
    assert_eq!((p.num, p.den), (3, 10));
    assert!(!p.logarithmic);
    // num / den is the linear intensity: 3 / 10.
    assert_eq!(p.num as f64 / p.den as f64, 0.3);
}

#[test]
fn test_scale_logarithmic_interior() {
    let dom = ScaleDomain::new(DomainType::Logarithmic, 0, 100).unwrap();
    let p = dom.scale_logarithmic(9).unwrap();
    assert_eq!((p.num, p.den), (9, 100));
    assert!(p.logarithmic);
    // ln(num + 1) / ln(den + 1) is the logarithmic intensity.
    let intensity = ((p.num + 1) as f64).ln() / ((p.den + 1) as f64).ln();
    assert!((intensity - (10f64.ln() / 101f64.ln())).abs() < 1e-12);
}

#[test]
fn test_scale_is_strictly_increasing() {
    for kind in [DomainType::Linear, DomainType::Logarithmic] {
        let dom = ScaleDomain::new(kind, -4, 17).unwrap();
        let mut prev_num = 0i128;
        for v in -3..17 {
            let p = dom.scale(v).unwrap();
            assert_eq!(p.den, 21);
            assert!(p.num > prev_num, "scale not increasing at {}", v);
            prev_num = p.num;
        }
    }
}

#[test]
fn test_scale_negative_bounds() {
    let dom = ScaleDomain::new(DomainType::Logarithmic, -10, -2).unwrap();
    assert!(dom.scale(-10).is_none());
    let p = dom.scale(-6).unwrap();
    assert_eq!((p.num, p.den), (4, 8));
    let top = dom.scale(-2).unwrap();
    assert_eq!(top.num, top.den);
}
