use bike_router::cost::{is_excluded, move_cost, CostError, Model};
use bike_router::speed::exceeds_50;
use bike_router::tags::{has_tag, has_tag_value, tags_from_flat, text_eq};

fn tags(pairs: &[(&str, &str)]) -> Vec<(String, String)> {
    pairs.iter().map(|(k, v)| (k.to_string(), v.to_string())).collect()
}

#[test]
fn tag_lookup_uses_first_occurrence() {
    let t = tags(&[("highway", "cycleway"), ("highway", "primary"), ("surface", "gravel")]);
    assert!(has_tag_value(&t, "highway", "cycleway"));
    assert!(!has_tag_value(&t, "highway", "primary"));
    assert!(has_tag(&t, "surface"));
    assert!(!has_tag(&t, "bicycle"));
    assert!(!has_tag_value(&t, "surface", "dirt"));
}

#[test]
fn text_equality() {
    assert!(text_eq("oneway", "oneway"));
    assert!(!text_eq("oneway", "oneway:bicycle"));
    assert!(!text_eq("abc", "abd"));
    assert!(text_eq("", ""));
}

#[test]
fn flat_tags_behave_like_a_map() {
    let flat: Vec<String> = vec!["highway", "path", "surface", "dirt", "highway", "cycleway", "note"]
        .into_iter()
        .map(|s| s.to_string())
        .collect();
    let t = tags_from_flat(&flat);
    assert_eq!(t.len(), 3);
    assert!(has_tag_value(&t, "highway", "cycleway"));
    assert!(has_tag_value(&t, "surface", "dirt"));
    assert!(has_tag_value(&t, "note", ""));
    assert!(tags_from_flat(&Vec::new()).is_empty());
}

#[test]
fn speed_limits() {
    assert!(exceeds_50("60"));
    assert!(exceeds_50("50.5"));
    assert!(exceeds_50("0070"));
    assert!(!exceeds_50("50"));
    assert!(!exceeds_50("50.0"));
    assert!(!exceeds_50("30"));
    assert!(!exceeds_50("60 mph"));
    assert!(!exceeds_50(""));
    assert!(!exceeds_50("."));
    assert!(exceeds_50("120."));
    assert!(!exceeds_50(".9"));
}

#[test]
fn exclusions() {
    assert!(is_excluded(&tags(&[("highway", "motorway")]), false));
    assert!(is_excluded(&tags(&[("highway", "motorway_link")]), false));
    assert!(is_excluded(&tags(&[("highway", "residential"), ("bicycle", "no")]), false));
    assert!(is_excluded(&tags(&[("highway", "steps")]), false));
    assert!(is_excluded(&tags(&[("highway", "construction")]), false));
    assert!(is_excluded(&tags(&[("highway", "service"), ("access", "private")]), false));
    assert!(is_excluded(&tags(&[("highway", "track"), ("source", "approximative")]), false));
    assert!(is_excluded(&tags(&[("name", "Main street")]), false));
    assert!(!is_excluded(&tags(&[("highway", "residential")]), false));
    assert!(!is_excluded(&tags(&[("bicycle", "yes")]), false));
    let no_winter = tags(&[("highway", "residential"), ("winter_service", "no")]);
    assert!(!is_excluded(&no_winter, false));
    assert!(is_excluded(&no_winter, true));
}

#[test]
fn safe_profile_factors() {
    let c = |pairs: &[(&str, &str)]| move_cost(1000, &tags(pairs), Model::Safe).unwrap();
    assert_eq!(c(&[("highway", "cycleway")]), 700);
    assert_eq!(c(&[("bicycle", "designated")]), 700);
    assert_eq!(c(&[("highway", "residential"), ("cycleway:left", "lane")]), 800);
    assert_eq!(c(&[("highway", "cycleway"), ("route", "bicycle")]), 560);
    assert_eq!(c(&[("highway", "residential"), ("route", "bicycle")]), 640);
    assert_eq!(c(&[("highway", "footway")]), 1100);
    assert_eq!(c(&[("highway", "residential"), ("surface", "gravel")]), 1200);
    assert_eq!(c(&[("highway", "residential"), ("surface", "dirt")]), 5000);
    assert_eq!(c(&[("highway", "residential"), ("bicycle", "dismount")]), 3000);
    assert_eq!(c(&[("highway", "tertiary")]), 2000);
    assert_eq!(c(&[("highway", "secondary")]), 3000);
    assert_eq!(c(&[("highway", "service")]), 1300);
    assert_eq!(c(&[("highway", "path")]), 1600);
    assert_eq!(c(&[("highway", "residential"), ("access", "customers")]), 1700);
    assert_eq!(c(&[("highway", "primary")]), 4000);
    assert_eq!(c(&[("highway", "trunk")]), 4000);
    assert_eq!(c(&[("highway", "residential")]), 1000);
    assert_eq!(c(&[("highway", "residential"), ("route", "ferry")]), 100000);
    assert_eq!(c(&[("highway", "residential"), ("maxspeed", "70")]), 1200);
    assert_eq!(c(&[("highway", "primary"), ("maxspeed", "50")]), 4000);
}

#[test]
fn fast_profile_factors() {
    let c = |pairs: &[(&str, &str)]| move_cost(1000, &tags(pairs), Model::Fast).unwrap();
    assert_eq!(c(&[("highway", "cycleway")]), 800);
    assert_eq!(c(&[("highway", "residential"), ("cycleway", "track")]), 900);
    assert_eq!(c(&[("highway", "footway")]), 5000);
    assert_eq!(c(&[("highway", "residential"), ("surface", "gravel")]), 1100);
    assert_eq!(c(&[("highway", "residential"), ("surface", "dirt")]), 5000);
    assert_eq!(c(&[("highway", "tertiary")]), 1100);
    assert_eq!(c(&[("highway", "secondary")]), 1200);
    assert_eq!(c(&[("highway", "service")]), 1300);
    assert_eq!(c(&[("highway", "path")]), 1300);
    assert_eq!(c(&[("highway", "primary"), ("maxspeed", "90")]), 1300);
    assert_eq!(c(&[("route", "ferry"), ("highway", "residential")]), 100000);
}

#[test]
fn costs_are_truncated_once() {
    // 13 * 0.8 * 0.7 = 7.28
    let t = tags(&[("highway", "cycleway"), ("route", "bicycle")]);
    assert_eq!(move_cost(13, &t, Model::Safe), Ok(7));
    assert_eq!(move_cost(0, &t, Model::Safe), Ok(0));
}

#[test]
fn negative_length_is_rejected() {
    let t = tags(&[("highway", "cycleway")]);
    assert_eq!(move_cost(-1, &t, Model::Safe), Err(CostError::NegativeDistance));
    assert_eq!(move_cost(-1000, &t, Model::Fast), Err(CostError::NegativeDistance));
}

#[test]
fn costs_are_never_negative() {
    let all = [
        tags(&[("highway", "cycleway"), ("route", "bicycle")]),
        tags(&[("highway", "primary"), ("route", "ferry"), ("maxspeed", "100")]),
        tags(&[]),
    ];
    for t in all.iter() {
        for d in [0, 1, 7, 1000, i32::MAX] {
            for m in [Model::Safe, Model::Fast] {
                assert!(move_cost(d, t, m).unwrap() >= 0);
            }
        }
    }
}
