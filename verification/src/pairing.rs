//! Linking the points that share a pairing symbol.
//!
//! A symbol must be used by exactly two points of a level, in one layout or
//! in two. Each of the two then names the other.

use vstd::prelude::*;
use crate::level::{
    LayoutAdditionalData,
    ObstacleData,
    PointData,
    PointId,
    PointType,
    OBSTACLE_RADIUS,
};
use crate::parser::{ParseError, RawLayout, RawLayoutView};

verus! {

/// What the search for a point's partner found.
#[derive(Clone, Copy, Debug, PartialEq, Eq, Structural)]
pub enum Partner {
    /// No other point has the symbol.
    Missing,
    /// Exactly one other point has the symbol.
    Unique(PointId),
    /// Two other points or more have the symbol.
    Several,
}

/// What each raw layout holds.
pub open spec fn views(raws: Seq<RawLayout>) -> Seq<RawLayoutView> {
    raws.map_values(|raw: RawLayout| raw@)
}

/// `id` names a point to be paired.
pub open spec fn is_common(raws: Seq<RawLayoutView>, id: PointId) -> bool {
    id.layout_index < raws.len() && id.point_index < raws[id.layout_index as int].commons.len()
}

/// The pairing symbol of the point `id`.
pub open spec fn symbol_at(raws: Seq<RawLayoutView>, id: PointId) -> char {
    raws[id.layout_index as int].commons[id.point_index as int].symbol
}

/// `a` and `b` are two points with one symbol.
pub open spec fn same_symbol(raws: Seq<RawLayoutView>, a: PointId, b: PointId) -> bool {
    is_common(raws, a) && is_common(raws, b) && a != b && symbol_at(raws, a) == symbol_at(raws, b)
}

/// `b` is the only point that shares the symbol of `a`.
pub open spec fn is_partner(raws: Seq<RawLayoutView>, a: PointId, b: PointId) -> bool {
    same_symbol(raws, a, b) && forall|c: PointId| #[trigger] same_symbol(raws, a, c) ==> c == b
}

/// No point shares the symbol of `a`.
pub open spec fn unpaired(raws: Seq<RawLayoutView>, a: PointId) -> bool {
    is_common(raws, a) && forall|c: PointId| !#[trigger] same_symbol(raws, a, c)
}

/// Two points or more share the symbol of `a`.
pub open spec fn ambiguous(raws: Seq<RawLayoutView>, a: PointId) -> bool {
    exists|b: PointId, c: PointId|
        b != c && #[trigger] same_symbol(raws, a, b) && #[trigger] same_symbol(raws, a, c)
}

/// The point `a` cannot be paired.
pub open spec fn offends(raws: Seq<RawLayoutView>, a: PointId) -> bool {
    unpaired(raws, a) || ambiguous(raws, a)
}

/// `a` comes before `b`: in an earlier layout, or earlier in the same one.
pub open spec fn precedes(a: PointId, b: PointId) -> bool {
    a.layout_index < b.layout_index || (a.layout_index == b.layout_index && a.point_index
        < b.point_index)
}

/// `a` is the first point that cannot be paired.
pub open spec fn first_offender(raws: Seq<RawLayoutView>, a: PointId) -> bool {
    offends(raws, a) && forall|b: PointId| precedes(b, a) ==> !#[trigger] offends(raws, b)
}

/// The error that the point `a` stands for.
pub open spec fn fault_of(raws: Seq<RawLayoutView>, a: PointId) -> ParseError {
    if unpaired(raws, a) {
        ParseError::UnpairedPoint
    } else {
        ParseError::AmbiguousPairing
    }
}

/// Every point to be paired has exactly one partner.
pub open spec fn pairing_sound(raws: Seq<RawLayoutView>) -> bool {
    forall|a: PointId| !#[trigger] offends(raws, a)
}

/// The kind `t` names the partner of the point `k` of layout `l`.
pub open spec fn names_partner(raws: Seq<RawLayoutView>, l: int, k: int, t: PointType) -> bool {
    t matches PointType::Paired { layout_id, pair_point_id } && is_partner(
        raws,
        PointId { layout_index: l as usize, point_index: k as usize },
        PointId { layout_index: layout_id, point_index: pair_point_id },
    )
}

/// `layout` is the raw layout `l` with its points paired: the paired points
/// first, in their order, then the start, then the finish.
pub open spec fn layout_resolves(
    raws: Seq<RawLayoutView>,
    l: int,
    layout: LayoutAdditionalData,
) -> bool {
    let raw = raws[l];
    let commons = raw.commons.len() as int;
    let starts = if raw.start is Some {
        1int
    } else {
        0int
    };
    let finishes = if raw.finish is Some {
        1int
    } else {
        0int
    };
    &&& layout.width == raw.width
    &&& layout.height == raw.height
    &&& layout.points_data@.len() == commons + starts + finishes
    &&& forall|k: int|
        0 <= k < commons ==> (#[trigger] layout.points_data@[k]).position
            == raw.commons[k].position && names_partner(
            raws,
            l,
            k,
            layout.points_data@[k].point_type,
        )
    &&& match raw.start {
        Some(p) => layout.start_point_index == Some(commons as usize)
            && layout.points_data@[commons] == (PointData {
            position: p,
            point_type: PointType::Start,
        }),
        None => layout.start_point_index is None,
    }
    &&& match raw.finish {
        Some(p) => layout.finish_point_index == Some((commons + starts) as usize)
            && layout.points_data@[commons + starts] == (PointData {
            position: p,
            point_type: PointType::Finish,
        }),
        None => layout.finish_point_index is None,
    }
    &&& layout.obstacles_data@.len() == raw.obstacles.len()
    &&& forall|k: int|
        0 <= k < raw.obstacles.len() ==> #[trigger] layout.obstacles_data@[k] == (ObstacleData {
            position: raw.obstacles[k],
            radius: OBSTACLE_RADIUS,
        })
}

/// `layouts` are the raw layouts with their points paired.
pub open spec fn resolves(raws: Seq<RawLayoutView>, layouts: Seq<LayoutAdditionalData>) -> bool {
    &&& layouts.len() == raws.len()
    &&& forall|l: int| 0 <= l < raws.len() ==> layout_resolves(raws, l, #[trigger] layouts[l])
}

/// Looks for the points that share the symbol of `a`.
pub fn find_partner(raws: &Vec<RawLayout>, a: PointId) -> (r: Partner)
    requires
        is_common(views(raws@), a),
    ensures
        match r {
            Partner::Missing => unpaired(views(raws@), a),
            Partner::Unique(b) => is_partner(views(raws@), a, b),
            Partner::Several => ambiguous(views(raws@), a),
        },
{
    let ghost rv = views(raws@);
    let symbol = raws[a.layout_index].commons[a.point_index].symbol;
    let mut found: Option<PointId> = None;
    let mut l: usize = 0;
    while l < raws.len()
        invariant
            rv == views(raws@),
            is_common(rv, a),
            symbol == symbol_at(rv, a),
            0 <= l <= raws.len(),
            forall|c: PointId|
                c.layout_index < l && #[trigger] same_symbol(rv, a, c) ==> found == Some(c),
            found matches Some(b) ==> same_symbol(rv, a, b) && b.layout_index < l,
        decreases raws.len() - l,
    {
        let commons = &raws[l].commons;
        let mut k: usize = 0;
        while k < commons.len()
            invariant
                rv == views(raws@),
                is_common(rv, a),
                symbol == symbol_at(rv, a),
                0 <= l < raws.len(),
                commons@ == rv[l as int].commons,
                0 <= k <= commons.len(),
                forall|c: PointId|
                    precedes(c, PointId { layout_index: l, point_index: k })
                        && #[trigger] same_symbol(rv, a, c) ==> found == Some(c),
                found matches Some(b) ==> same_symbol(rv, a, b) && precedes(
                    b,
                    PointId { layout_index: l, point_index: k },
                ),
            decreases commons.len() - k,
        {
            let here = PointId { layout_index: l, point_index: k };
            if commons[k].symbol == symbol && !(l == a.layout_index && k == a.point_index) {
                assert(same_symbol(rv, a, here));
                match found {
                    Some(b) => {
                        assert(same_symbol(rv, a, b) && b != here);
                        return Partner::Several;
                    },
                    None => {
                        found = Some(here);
                    },
                }
            }
            k = k + 1;
        }
        l = l + 1;
    }
    match found {
        None => Partner::Missing,
        Some(b) => Partner::Unique(b),
    }
}

/// Pairs the points of a level. Fails at the first point, in the order of
/// layouts and of points within a layout, that has no partner or several.
pub fn resolve_pairs(raws: &Vec<RawLayout>) -> (r: Result<Vec<LayoutAdditionalData>, ParseError>)
    requires
        forall|l: int| 0 <= l < raws@.len() ==> (#[trigger] raws@[l])@.wf(),
    ensures
        r is Ok <==> pairing_sound(views(raws@)),
        match r {
            Ok(layouts) => {
                &&& pairing_sound(views(raws@))
                &&& resolves(views(raws@), layouts@)
                &&& forall|l: int| 0 <= l < layouts@.len() ==> (#[trigger] layouts@[l]).wf()
            },
            Err(e) => exists|a: PointId| #[trigger]
                first_offender(views(raws@), a) && e == fault_of(views(raws@), a),
        },
{
    let ghost rv = views(raws@);
    let mut layouts: Vec<LayoutAdditionalData> = Vec::new();
    let mut l: usize = 0;
    while l < raws.len()
        invariant
            rv == views(raws@),
            forall|j: int| 0 <= j < raws@.len() ==> (#[trigger] raws@[j])@.wf(),
            0 <= l <= raws.len(),
            layouts@.len() == l,
            forall|j: int| 0 <= j < l ==> layout_resolves(rv, j, #[trigger] layouts@[j]),
            forall|j: int| 0 <= j < l ==> (#[trigger] layouts@[j]).wf(),
            forall|b: PointId| b.layout_index < l ==> !#[trigger] offends(rv, b),
        decreases raws.len() - l,
    {
        let raw = &raws[l];
        assert(raw@.wf());
        assert(rv[l as int] == raw@);
        let mut points: Vec<PointData> = Vec::new();
        let mut k: usize = 0;
        while k < raw.commons.len()
            invariant
                rv == views(raws@),
                0 <= l < raws.len(),
                raw == raws@[l as int],
                raw@.wf(),
                rv[l as int] == raw@,
                0 <= k <= raw.commons.len(),
                points@.len() == k,
                forall|j: int|
                    0 <= j < k ==> (#[trigger] points@[j]).position == raw.commons@[j].position
                        && names_partner(rv, l as int, j, points@[j].point_type),
                forall|b: PointId|
                    precedes(b, PointId { layout_index: l, point_index: k })
                        ==> !#[trigger] offends(rv, b),
            decreases raw.commons.len() - k,
        {
            let a = PointId { layout_index: l, point_index: k };
            match find_partner(raws, a) {
                Partner::Missing => {
                    assert(first_offender(rv, a));
                    return Err(ParseError::UnpairedPoint);
                },
                Partner::Several => {
                    assert(first_offender(rv, a));
                    return Err(ParseError::AmbiguousPairing);
                },
                Partner::Unique(b) => {
                    points.push(
                        PointData {
                            position: raw.commons[k].position,
                            point_type: PointType::Paired {
                                layout_id: b.layout_index,
                                pair_point_id: b.point_index,
                            },
                        },
                    );
                    assert(!offends(rv, a));
                },
            }
            k = k + 1;
        }
        let start_point_index = match raw.start {
            Some(position) => {
                points.push(PointData { position, point_type: PointType::Start });
                Some(points.len() - 1)
            },
            None => None,
        };
        let finish_point_index = match raw.finish {
            Some(position) => {
                points.push(PointData { position, point_type: PointType::Finish });
                Some(points.len() - 1)
            },
            None => None,
        };
        let mut obstacles: Vec<ObstacleData> = Vec::new();
        let mut o: usize = 0;
        while o < raw.obstacles.len()
            invariant
                raw@.wf(),
                0 <= o <= raw.obstacles.len(),
                obstacles@.len() == o,
                forall|j: int|
                    0 <= j < o ==> #[trigger] obstacles@[j] == (ObstacleData {
                        position: raw.obstacles@[j],
                        radius: OBSTACLE_RADIUS,
                    }),
            decreases raw.obstacles.len() - o,
        {
            obstacles.push(ObstacleData { position: raw.obstacles[o], radius: OBSTACLE_RADIUS });
            o = o + 1;
        }
        let layout = LayoutAdditionalData {
            width: raw.width,
            height: raw.height,
            points_data: points,
            obstacles_data: obstacles,
            start_point_index,
            finish_point_index,
        };
        proof {
            assert forall|j: int| 0 <= j < layout.points_data@.len() implies (
            #[trigger] layout.points_data@[j]).position.in_grid() by {
                if j < raw.commons@.len() {
                    assert(raw@.commons[j].position.in_grid());
                }
            }
            assert forall|j: int| 0 <= j < layout.obstacles_data@.len() implies (
            #[trigger] layout.obstacles_data@[j]).wf() by {
                assert(raw@.obstacles[j].in_grid());
            }
            assert(layout.wf());
            assert(layout_resolves(rv, l as int, layout));
            assert forall|b: PointId| b.layout_index < l + 1 implies !#[trigger] offends(
                rv,
                b,
            ) by {
                if b.layout_index == l && b.point_index < raw.commons@.len() {
                    assert(precedes(b, PointId { layout_index: l, point_index: k }));
                }
            }
        }
        layouts.push(layout);
        l = l + 1;
    }
    Ok(layouts)
}

/// The first point that cannot be paired is one point.
pub proof fn lemma_first_offender_unique(raws: Seq<RawLayoutView>, a: PointId, b: PointId)
    requires
        first_offender(raws, a),
        first_offender(raws, b),
    ensures
        a == b,
{
    if precedes(a, b) {
        assert(!offends(raws, a));
    }
    if precedes(b, a) {
        assert(!offends(raws, b));
    }
}

/// The partner of a point is one point, and has that point for its partner.
pub proof fn lemma_partner_mutual(raws: Seq<RawLayoutView>, a: PointId, b: PointId, c: PointId)
    requires
        is_partner(raws, a, b),
    ensures
        is_partner(raws, b, a),
        is_partner(raws, a, c) ==> c == b,
{
    assert(same_symbol(raws, b, a));
    assert forall|d: PointId| #[trigger] same_symbol(raws, b, d) implies d == a by {
        if d != a {
            assert(same_symbol(raws, a, d));
        }
    }
}

} // verus!
