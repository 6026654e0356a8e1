//! Reading a whole level: every layout, then the pairing, then the start.

use vstd::prelude::*;
use crate::level::{LevelAdditionalData, LevelData, PointId, PointType};
use crate::pairing::{
    fault_of,
    first_offender,
    is_partner,
    layout_resolves,
    names_partner,
    offends,
    pairing_sound,
    resolve_pairs,
    resolves,
    same_symbol,
    views,
};
use crate::parser::{layout_fault, parse_layout, scan, ParseError, RawLayout, RawLayoutView};

verus! {

/// What each text says.
pub open spec fn scans(texts: Seq<String>) -> Seq<RawLayoutView> {
    texts.map_values(|text: String| scan(text@))
}

/// The text `k` is the first that has a fault.
pub open spec fn first_faulty(texts: Seq<String>, k: int) -> bool {
    &&& 0 <= k < texts.len()
    &&& layout_fault(texts[k]@) is Some
    &&& forall|j: int| 0 <= j < k ==> layout_fault(#[trigger] texts[j]@) is None
}

/// No text has a fault.
pub open spec fn texts_sound(texts: Seq<String>) -> bool {
    forall|j: int| 0 <= j < texts.len() ==> layout_fault(#[trigger] texts[j]@) is None
}

/// The layout `l` is the first that has a start cell.
pub open spec fn first_with_start(raws: Seq<RawLayoutView>, l: int) -> bool {
    &&& 0 <= l < raws.len()
    &&& raws[l].start is Some
    &&& forall|j: int| 0 <= j < l ==> (#[trigger] raws[j]).start is None
}

/// No layout has a start cell.
pub open spec fn no_start(raws: Seq<RawLayoutView>) -> bool {
    forall|j: int| 0 <= j < raws.len() ==> (#[trigger] raws[j]).start is None
}

/// `r` is what reading `data` gives: the fault of the first faulty layout;
/// else the fault of the first point that cannot be paired; else
/// `MissingStart` where no layout has a start; else the level.
pub open spec fn is_reading_of(
    data: LevelData,
    r: Result<LevelAdditionalData, ParseError>,
) -> bool {
    let texts = data.layouts@;
    let raws = scans(texts);
    match r {
        Err(ParseError::MissingStart) => texts_sound(texts) && pairing_sound(raws) && no_start(
            raws,
        ),
        Err(ParseError::UnpairedPoint) | Err(ParseError::AmbiguousPairing) => texts_sound(texts)
            && exists|a: PointId| #[trigger]
            first_offender(raws, a) && r->Err_0 == fault_of(raws, a),
        Err(e) => exists|k: int| #[trigger] first_faulty(texts, k) && Some(e) == layout_fault(texts[k]@),
        Ok(level) => {
            &&& texts_sound(texts)
            &&& pairing_sound(raws)
            &&& level.wf()
            &&& resolves(raws, level.layouts())
            &&& level.win_threshold() == data.win_count
            &&& first_with_start(raws, level.start_point().layout_index as int)
        },
    }
}

/// Reads a level. The level is read exactly where every layout is sound,
/// every pairing symbol is used by exactly two points, and some layout has
/// a start.
pub fn parse_level(data: &LevelData) -> (r: Result<LevelAdditionalData, ParseError>)
    ensures
        is_reading_of(*data, r),
        r is Ok <==> texts_sound(data.layouts@) && pairing_sound(scans(data.layouts@))
            && !no_start(scans(data.layouts@)),
{
    let r = read_level(data);
    proof {
        lemma_read_when_sound(*data, r);
    }
    r
}

/// A level is read exactly where every layout is sound, every pairing
/// symbol is used by exactly two points, and some layout has a start.
pub proof fn lemma_read_when_sound(data: LevelData, r: Result<LevelAdditionalData, ParseError>)
    requires
        is_reading_of(data, r),
    ensures
        r is Ok <==> texts_sound(data.layouts@) && pairing_sound(scans(data.layouts@))
            && !no_start(scans(data.layouts@)),
{
    let texts = data.layouts@;
    let raws = scans(texts);
    match r {
        Err(ParseError::UnpairedPoint) | Err(ParseError::AmbiguousPairing) => {
            let a = choose|a: PointId| #[trigger]
                first_offender(raws, a) && r->Err_0 == fault_of(raws, a);
            assert(offends(raws, a));
        },
        Err(ParseError::MissingStart) => {},
        Err(e) => {
            let k = choose|k: int| #[trigger]
                first_faulty(texts, k) && Some(e) == layout_fault(texts[k]@);
            assert(!(layout_fault(texts[k]@) is None));
        },
        Ok(level) => {
            assert(first_with_start(raws, level.start_point().layout_index as int));
        },
    }
}

/// Reads the layouts, pairs the points and finds the start.
fn read_level(data: &LevelData) -> (r: Result<LevelAdditionalData, ParseError>)
    ensures
        is_reading_of(*data, r),
{
    let ghost texts = data.layouts@;
    let mut raws: Vec<RawLayout> = Vec::new();
    let mut k: usize = 0;
    while k < data.layouts.len()
        invariant
            texts == data.layouts@,
            0 <= k <= texts.len(),
            raws@.len() == k,
            forall|j: int| 0 <= j < k ==> layout_fault(#[trigger] texts[j]@) is None,
            forall|j: int| 0 <= j < k ==> (#[trigger] raws@[j])@ == scan(texts[j]@),
            forall|j: int| 0 <= j < k ==> (#[trigger] raws@[j])@.wf(),
        decreases texts.len() - k,
    {
        match parse_layout(data.layouts[k].as_str()) {
            Err(e) => {
                assert(first_faulty(texts, k as int));
                return Err(e);
            },
            Ok(raw) => {
                raws.push(raw);
            },
        }
        k = k + 1;
    }
    let ghost rv = scans(texts);
    assert(views(raws@) =~= rv);
    assert(texts_sound(texts));
    let layouts = match resolve_pairs(&raws) {
        Err(e) => {
            return Err(e);
        },
        Ok(layouts) => layouts,
    };
    let mut l: usize = 0;
    while l < layouts.len()
        invariant
            0 <= l <= layouts.len(),
            layouts@.len() == rv.len(),
            resolves(rv, layouts@),
            rv == scans(data.layouts@),
            texts_sound(data.layouts@),
            pairing_sound(rv),
            forall|j: int| 0 <= j < layouts@.len() ==> (#[trigger] layouts@[j]).wf(),
            forall|j: int| 0 <= j < l ==> (#[trigger] rv[j]).start is None,
        decreases layouts.len() - l,
    {
        assert(layout_resolves(rv, l as int, layouts@[l as int]));
        match layouts[l].start_point_index {
            Some(s) => {
                let level = LevelAdditionalData::assemble(
                    layouts,
                    data.win_count,
                    PointId { layout_index: l, point_index: s },
                );
                proof {
                    lemma_resolved_pairing_mutual(rv, level);
                    assert forall|j: int| 0 <= j < l implies (
                    #[trigger] level.layouts()[j]).start_point_index is None by {
                        assert(layout_resolves(rv, j, level.layouts()[j]));
                        assert(rv[j].start is None);
                    }
                    assert(first_with_start(rv, l as int));
                    assert(level.wf());
                }
                return Ok(level);
            },
            None => {},
        }
        l = l + 1;
    }
    Err(ParseError::MissingStart)
}

/// In a level whose layouts are raw layouts with their points paired, the
/// pairing is mutual.
proof fn lemma_resolved_pairing_mutual(raws: Seq<RawLayoutView>, level: LevelAdditionalData)
    requires
        resolves(raws, level.layouts()),
    ensures
        level.pairing_mutual(),
{
    assert forall|id: PointId| #[trigger]
        level.has_point(id) && level.point(id).point_type is Paired implies {
        let other = level.exit_of(id);
        &&& level.has_point(other)
        &&& other != id
        &&& level.point(other).point_type == (PointType::Paired {
            layout_id: id.layout_index,
            pair_point_id: id.point_index,
        })
    } by {
        let other = level.exit_of(id);
        let l = id.layout_index as int;
        let k = id.point_index as int;
        assert(layout_resolves(raws, l, level.layouts()[l]));
        assert(k < raws[l].commons.len());
        assert(names_partner(raws, l, k, level.point(id).point_type));
        assert(is_partner(raws, id, other));
        let m = other.layout_index as int;
        let j = other.point_index as int;
        assert(layout_resolves(raws, m, level.layouts()[m]));
        assert(names_partner(raws, m, j, level.point(other).point_type));
        assert(same_symbol(raws, other, id));
    }
}

/// Pairing is complete: where every layout of a level is sound, the level
/// fails with `UnpairedPoint` or `AmbiguousPairing` exactly where some
/// pairing symbol is not used by exactly two points, and is never read then.
pub proof fn lemma_pairing_complete(data: LevelData, r: Result<LevelAdditionalData, ParseError>)
    requires
        is_reading_of(data, r),
        texts_sound(data.layouts@),
    ensures
        (r == Err::<LevelAdditionalData, ParseError>(ParseError::UnpairedPoint) || r == Err::<
            LevelAdditionalData,
            ParseError,
        >(ParseError::AmbiguousPairing)) <==> !pairing_sound(scans(data.layouts@)),
        r is Ok ==> pairing_sound(scans(data.layouts@)),
{
    let texts = data.layouts@;
    let raws = scans(texts);
    match r {
        Err(ParseError::UnpairedPoint) | Err(ParseError::AmbiguousPairing) => {
            let a = choose|a: PointId| #[trigger]
                first_offender(raws, a) && r->Err_0 == fault_of(raws, a);
            assert(offends(raws, a));
        },
        Err(ParseError::MissingStart) => {},
        Err(e) => {
            let k = choose|k: int| #[trigger]
                first_faulty(texts, k) && Some(e) == layout_fault(texts[k]@);
            assert(layout_fault(texts[k]@) is None);
        },
        Ok(level) => {},
    }
}

/// What reading a level gives is determined: two results of reading the
/// same level are the same error, or are levels with the same layouts, the
/// same start and the same number of connections asked for.
pub proof fn lemma_reading_determined(
    data: LevelData,
    r: Result<LevelAdditionalData, ParseError>,
    s: Result<LevelAdditionalData, ParseError>,
)
    requires
        is_reading_of(data, r),
        is_reading_of(data, s),
    ensures
        r is Err ==> s == r,
        r is Ok ==> s is Ok && s->Ok_0.win_threshold() == r->Ok_0.win_threshold()
            && s->Ok_0.start_point() == r->Ok_0.start_point() && s->Ok_0.layouts().len()
            == r->Ok_0.layouts().len(),
{
    let texts = data.layouts@;
    let raws = scans(texts);
    if !texts_sound(texts) {
        let j = choose|j: int| 0 <= j < texts.len() && !(layout_fault(#[trigger] texts[j]@) is None);
        let e = r->Err_0;
        let f = s->Err_0;
        let k = choose|k: int| #[trigger]
            first_faulty(texts, k) && Some(e) == layout_fault(texts[k]@);
        let m = choose|m: int| #[trigger]
            first_faulty(texts, m) && Some(f) == layout_fault(texts[m]@);
        assert(k == m);
    } else {
        lemma_pairing_complete(data, r);
        lemma_pairing_complete(data, s);
        if !pairing_sound(raws) {
            let a = choose|a: PointId| #[trigger]
                first_offender(raws, a) && r->Err_0 == fault_of(raws, a);
            let b = choose|b: PointId| #[trigger]
                first_offender(raws, b) && s->Err_0 == fault_of(raws, b);
            crate::pairing::lemma_first_offender_unique(raws, a, b);
        } else if r is Ok {
            let x = r->Ok_0;
            let y = s->Ok_0;
            let lx = x.start_point().layout_index as int;
            let ly = y.start_point().layout_index as int;
            assert(first_with_start(raws, lx));
            assert(first_with_start(raws, ly));
            assert(lx == ly);
            assert(layout_resolves(raws, lx, x.layouts()[lx]));
            assert(layout_resolves(raws, lx, y.layouts()[lx]));
        } else {
            assert(no_start(raws));
            if s is Ok {
                let y = s->Ok_0;
                assert(first_with_start(raws, y.start_point().layout_index as int));
            }
        }
    }
}

} // verus!
