//! The edge cost model: which edges a bicycle may take, and what each costs.
//!
//! A cost is the edge length in meters times a product of four factors, each
//! given in tenths: a bicycle-route bonus, the road class, ferries and speed.
//! The product is computed exactly and truncated once, at the end.
use vstd::prelude::*;
use crate::speed::{exceeds_50, speed_above_50};
use crate::tags::{find_tag, has_key, has_tag, has_tag_value, has_value, tag_value, text_eq};

verus! {

/// A routing profile.
#[derive(Clone, Copy, Debug, PartialEq, Eq, Structural)]
pub enum Model {
    Fast,
    Safe,
}

/// Why an edge has no cost.
#[derive(Clone, Copy, Debug, PartialEq, Eq, Structural)]
pub enum CostError {
    /// The edge length handed in was negative.
    NegativeDistance,
}

/// The largest cost a single edge can have.
pub const MAX_EDGE_COST: i64 = 2_576_980_376_400;

/// The denominator of a product of four factors given in tenths.
pub const FACTOR_SCALE: i64 = 10000;

pub open spec fn hv(t: Seq<(String, String)>, k: &str, v: &str) -> bool {
    has_value(t, k@, v@)
}

/// `key` marks a bicycle lane: shared, opposite, plain or a track.
pub open spec fn lane_value(t: Seq<(String, String)>, k: &str) -> bool {
    hv(t, k, "shared_lane") || hv(t, k, "opposite_lane") || hv(t, k, "lane") || hv(t, k, "track")
}

/// The way has a bicycle lane of some kind, or bicycles are explicitly allowed.
pub open spec fn lane_like(t: Seq<(String, String)>) -> bool {
    hv(t, "bicycle", "yes") || lane_value(t, "cycleway") || lane_value(t, "cycleway:left")
        || lane_value(t, "cycleway:right") || lane_value(t, "cycleway:both")
}

/// Whether a bicycle may not use an edge with these tags at all.
#[verifier::opaque]
pub open spec fn excluded(t: Seq<(String, String)>, winter: bool) -> bool {
    hv(t, "highway", "motorway") || hv(t, "highway", "motorway_link") || hv(t, "bicycle", "no")
        || hv(t, "highway", "steps") || hv(t, "highway", "construction") || hv(
        t,
        "access",
        "private",
    ) || hv(t, "source", "approximative") || (!has_key(t, "highway"@) && !has_key(
        t,
        "bicycle"@,
    )) || (winter && hv(t, "winter_service", "no"))
}

pub open spec fn route_factor(t: Seq<(String, String)>) -> int {
    if hv(t, "route", "bicycle") {
        8
    } else {
        10
    }
}

pub open spec fn cycleway_or_designated(t: Seq<(String, String)>) -> bool {
    hv(t, "highway", "cycleway") || hv(t, "bicycle", "designated")
}

/// The road class factor of the safe profile, first match wins.
pub open spec fn class_factor_safe(t: Seq<(String, String)>) -> int {
    if cycleway_or_designated(t) {
        7
    } else if lane_like(t) || hv(t, "route", "bicycle") {
        8
    } else if hv(t, "highway", "footway") {
        if !hv(t, "bicycle", "no") {
            11
        } else {
            100
        }
    } else if hv(t, "surface", "gravel") {
        12
    } else if hv(t, "surface", "dirt") {
        50
    } else if hv(t, "bicycle", "dismount") {
        30
    } else if hv(t, "highway", "tertiary") {
        20
    } else if hv(t, "highway", "secondary") {
        30
    } else if hv(t, "highway", "service") {
        13
    } else if hv(t, "highway", "path") {
        16
    } else if hv(t, "access", "customers") {
        17
    } else if hv(t, "highway", "primary") {
        40
    } else if hv(t, "highway", "trunk") {
        40
    } else {
        10
    }
}

/// The road class factor of the fast profile, first match wins.
pub open spec fn class_factor_fast(t: Seq<(String, String)>) -> int {
    if cycleway_or_designated(t) {
        8
    } else if lane_like(t) {
        9
    } else if hv(t, "highway", "footway") {
        50
    } else if hv(t, "surface", "gravel") {
        11
    } else if hv(t, "surface", "dirt") {
        50
    } else if hv(t, "bicycle", "dismount") {
        30
    } else if hv(t, "highway", "tertiary") {
        11
    } else if hv(t, "highway", "secondary") {
        12
    } else if hv(t, "highway", "service") {
        13
    } else if hv(t, "highway", "path") {
        13
    } else if hv(t, "access", "customers") {
        14
    } else if hv(t, "highway", "primary") {
        13
    } else if hv(t, "highway", "trunk") {
        13
    } else {
        10
    }
}

pub open spec fn ferry_factor(t: Seq<(String, String)>) -> int {
    if hv(t, "route", "ferry") {
        1000
    } else {
        10
    }
}

/// Roads faster than 50 cost more on the safe profile only.
pub open spec fn speed_factor(t: Seq<(String, String)>, model: Model) -> int {
    if model == Model::Safe && (match tag_value(t, "maxspeed"@) {
        Some(v) => speed_above_50(v),
        None => false,
    }) {
        12
    } else {
        10
    }
}

pub open spec fn class_factor(t: Seq<(String, String)>, model: Model) -> int {
    match model {
        Model::Safe => class_factor_safe(t),
        Model::Fast => class_factor_fast(t),
    }
}

/// The product of the four factors, over `FACTOR_SCALE`.
pub open spec fn factor(t: Seq<(String, String)>, model: Model) -> int {
    route_factor(t) * class_factor(t, model) * ferry_factor(t) * speed_factor(t, model)
}

/// The cost of an edge of length `distance` with tags `t`.
#[verifier::opaque]
pub open spec fn edge_cost(distance: int, t: Seq<(String, String)>, model: Model) -> int {
    (distance * factor(t, model)) / (FACTOR_SCALE as int)
}

/// An edge cost lies between zero and the cost of the longest edge with the
/// largest factor.
pub proof fn lemma_edge_cost_bounds(distance: int, t: Seq<(String, String)>, model: Model)
    requires
        0 <= distance <= i32::MAX,
    ensures
        0 <= edge_cost(distance, t, model) <= MAX_EDGE_COST,
{
    reveal(edge_cost);
    let f = factor(t, model);
    assert(0 <= f <= 12_000_000) by (nonlinear_arith)
        requires
            f == route_factor(t) * class_factor(t, model) * ferry_factor(t) * speed_factor(
                t,
                model,
            ),
            8 <= route_factor(t) <= 10,
            7 <= class_factor(t, model) <= 100,
            10 <= ferry_factor(t) <= 1000,
            10 <= speed_factor(t, model) <= 12,
    ;
    assert(0 <= distance * f <= 2_147_483_647 * 12_000_000) by (nonlinear_arith)
        requires
            0 <= distance <= 2_147_483_647,
            0 <= f <= 12_000_000,
    ;
}

fn lane_value_of(tags: &Vec<(String, String)>, key: &str) -> (r: bool)
    ensures
        r == lane_value(tags@, key),
{
    match find_tag(tags, key) {
        Some(i) => {
            let v = tags[i].1.as_str();
            text_eq(v, "shared_lane") || text_eq(v, "opposite_lane") || text_eq(v, "lane")
                || text_eq(v, "track")
        },
        None => false,
    }
}

fn is_lane_like(tags: &Vec<(String, String)>) -> (r: bool)
    ensures
        r == lane_like(tags@),
{
    has_tag_value(tags, "bicycle", "yes") || lane_value_of(tags, "cycleway") || lane_value_of(
        tags,
        "cycleway:left",
    ) || lane_value_of(tags, "cycleway:right") || lane_value_of(tags, "cycleway:both")
}

/// Whether a bicycle may not use an edge with these tags at all: motorways,
/// steps, construction sites, private or forbidden ways, approximate data,
/// ways with neither a `highway` nor a `bicycle` tag, and in winter mode ways
/// without winter service.
pub fn is_excluded(tags: &Vec<(String, String)>, winter: bool) -> (r: bool)
    ensures
        r == excluded(tags@, winter),
{
    reveal(excluded);
    has_tag_value(tags, "highway", "motorway") || has_tag_value(tags, "highway", "motorway_link")
        || has_tag_value(tags, "bicycle", "no") || has_tag_value(tags, "highway", "steps")
        || has_tag_value(tags, "highway", "construction") || has_tag_value(
        tags,
        "access",
        "private",
    ) || has_tag_value(tags, "source", "approximative") || (!has_tag(tags, "highway")
        && !has_tag(tags, "bicycle")) || (winter && has_tag_value(tags, "winter_service", "no"))
}

fn class_factor_safe_of(tags: &Vec<(String, String)>) -> (r: i64)
    ensures
        r == class_factor_safe(tags@),
{
    if has_tag_value(tags, "highway", "cycleway") || has_tag_value(tags, "bicycle", "designated") {
        7
    } else if is_lane_like(tags) || has_tag_value(tags, "route", "bicycle") {
        8
    } else if has_tag_value(tags, "highway", "footway") {
        if !has_tag_value(tags, "bicycle", "no") {
            11
        } else {
            100
        }
    } else if has_tag_value(tags, "surface", "gravel") {
        12
    } else if has_tag_value(tags, "surface", "dirt") {
        50
    } else if has_tag_value(tags, "bicycle", "dismount") {
        30
    } else if has_tag_value(tags, "highway", "tertiary") {
        20
    } else if has_tag_value(tags, "highway", "secondary") {
        30
    } else if has_tag_value(tags, "highway", "service") {
        13
    } else if has_tag_value(tags, "highway", "path") {
        16
    } else if has_tag_value(tags, "access", "customers") {
        17
    } else if has_tag_value(tags, "highway", "primary") {
        40
    } else if has_tag_value(tags, "highway", "trunk") {
        40
    } else {
        10
    }
}

fn class_factor_fast_of(tags: &Vec<(String, String)>) -> (r: i64)
    ensures
        r == class_factor_fast(tags@),
{
    if has_tag_value(tags, "highway", "cycleway") || has_tag_value(tags, "bicycle", "designated") {
        8
    } else if is_lane_like(tags) {
        9
    } else if has_tag_value(tags, "highway", "footway") {
        50
    } else if has_tag_value(tags, "surface", "gravel") {
        11
    } else if has_tag_value(tags, "surface", "dirt") {
        50
    } else if has_tag_value(tags, "bicycle", "dismount") {
        30
    } else if has_tag_value(tags, "highway", "tertiary") {
        11
    } else if has_tag_value(tags, "highway", "secondary") {
        12
    } else if has_tag_value(tags, "highway", "service") {
        13
    } else if has_tag_value(tags, "highway", "path") {
        13
    } else if has_tag_value(tags, "access", "customers") {
        14
    } else if has_tag_value(tags, "highway", "primary") {
        13
    } else if has_tag_value(tags, "highway", "trunk") {
        13
    } else {
        10
    }
}

fn speed_factor_of(tags: &Vec<(String, String)>, model: Model) -> (r: i64)
    ensures
        r == speed_factor(tags@, model),
{
    if model != Model::Safe {
        return 10;
    }
    match find_tag(tags, "maxspeed") {
        Some(i) => if exceeds_50(tags[i].1.as_str()) {
            12
        } else {
            10
        },
        None => 10,
    }
}

/// The cost of moving along an edge of length `distance` (meters) whose way
/// carries `tags`, under `model`. A negative length is rejected.
pub fn move_cost(distance: i32, tags: &Vec<(String, String)>, model: Model) -> (r: Result<
    i64,
    CostError,
>)
    ensures
        distance < 0 <==> r == Err::<i64, CostError>(CostError::NegativeDistance),
        distance >= 0 <==> r is Ok,
        r matches Ok(c) ==> c == edge_cost(distance as int, tags@, model) && c >= 0,
{
    reveal(edge_cost);
    if distance < 0 {
        return Err(CostError::NegativeDistance);
    }
    let route: i64 = if has_tag_value(tags, "route", "bicycle") {
        8
    } else {
        10
    };
    let class = match model {
        Model::Safe => class_factor_safe_of(tags),
        Model::Fast => class_factor_fast_of(tags),
    };
    let ferry: i64 = if has_tag_value(tags, "route", "ferry") {
        1000
    } else {
        10
    };
    let speed = speed_factor_of(tags, model);
    let f = route * class * ferry * speed;
    assert(0 <= f <= 12_000_000) by (nonlinear_arith)
        requires
            f == route * class * ferry * speed,
            8 <= route <= 10,
            7 <= class <= 100,
            10 <= ferry <= 1000,
            10 <= speed <= 12,
    ;
    let d = distance as i64;
    assert(0 <= d * f <= 2_147_483_647 * 12_000_000) by (nonlinear_arith)
        requires
            0 <= d <= 2_147_483_647,
            0 <= f <= 12_000_000,
    ;
    Ok((d * f) / FACTOR_SCALE)
}

} // verus!
