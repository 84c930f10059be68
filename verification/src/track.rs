//! From tokens to track points.
//!
//! A `trkpt` opening tag with parsable `lon` and `lat` attributes yields a
//! point; a point whose longitude or latitude is missing or unusable is
//! skipped with a warning and shifts nothing else. A text node binds as the
//! timestamp of the most recent point exactly while the reader stands
//! inside a `time` element that is nested directly under that point's tag;
//! text anywhere else is ignored.

use crate::coord::{coord_of, parse_coord, COORD_ABS_MAX_E7};
use crate::xml::{attrs_view, token_views, AttrModel, TagAttr, Token, TokenModel};
use crate::scan::copy_range;
use crate::Warning;
use vstd::prelude::*;

verus! {

/// One GPS fix: fixed-point coordinate plus optional timestamp bytes.
#[derive(Debug, Clone, PartialEq, Eq)]
pub struct TrackPoint {
    pub lat_e7: i64,
    pub lon_e7: i64,
    pub time: Option<Vec<u8>>,
}

#[verifier::ext_equal]
pub struct TrackPointModel {
    pub lat_e7: int,
    pub lon_e7: int,
    pub time: Option<Seq<u8>>,
}

impl View for TrackPoint {
    type V = TrackPointModel;

    open spec fn view(&self) -> TrackPointModel {
        TrackPointModel {
            lat_e7: self.lat_e7 as int,
            lon_e7: self.lon_e7 as int,
            time: match self.time {
                Some(ref t) => Some(t@),
                None => None,
            },
        }
    }
}

pub open spec fn points_view(v: Seq<TrackPoint>) -> Seq<TrackPointModel> {
    v.map_values(|p: TrackPoint| p@)
}

pub open spec fn trkpt_name() -> Seq<u8> {
    seq![116u8, 114u8, 107u8, 112u8, 116u8]
}

pub open spec fn time_name() -> Seq<u8> {
    seq![116u8, 105u8, 109u8, 101u8]
}

pub open spec fn lon_name() -> Seq<u8> {
    seq![108u8, 111u8, 110u8]
}

pub open spec fn lat_name() -> Seq<u8> {
    seq![108u8, 97u8, 116u8]
}

fn is_trkpt(v: &Vec<u8>) -> (r: bool)
    ensures
        r == (v@ == trkpt_name()),
{
    let r = v.len() == 5 && v[0] == 116 && v[1] == 114 && v[2] == 107 && v[3] == 112 && v[4]
        == 116;
    proof {
        if r {
            assert(v@ =~= trkpt_name());
        }
    }
    r
}

fn is_time(v: &Vec<u8>) -> (r: bool)
    ensures
        r == (v@ == time_name()),
{
    let r = v.len() == 4 && v[0] == 116 && v[1] == 105 && v[2] == 109 && v[3] == 101;
    proof {
        if r {
            assert(v@ =~= time_name());
        }
    }
    r
}

fn name3(v: &Vec<u8>, a: u8, b: u8, c: u8) -> (r: bool)
    ensures
        r == (v@ == seq![a, b, c]),
{
    let r = v.len() == 3 && v[0] == a && v[1] == b && v[2] == c;
    proof {
        if r {
            assert(v@ =~= seq![a, b, c]);
        }
    }
    r
}

/// The value of the first attribute with the given name.
pub open spec fn find_attr(attrs: Seq<AttrModel>, name: Seq<u8>) -> Option<Seq<u8>>
    decreases attrs.len(),
{
    if attrs.len() == 0 {
        None
    } else if attrs[0].name == name {
        Some(attrs[0].value)
    } else {
        find_attr(attrs.drop_first(), name)
    }
}

/// That attribute's value read as a coordinate.
pub open spec fn attr_coord(attrs: Seq<AttrModel>, name: Seq<u8>) -> Option<int> {
    match find_attr(attrs, name) {
        None => None,
        Some(v) => coord_of(v),
    }
}

/// Looks the named attribute up and parses it, mirroring `attr_coord`.
fn read_attr_coord(attrs: &Vec<TagAttr>, a: u8, b: u8, c: u8) -> (r: Option<i64>)
    ensures
        match r {
            Some(v) => attr_coord(attrs_view(attrs@), seq![a, b, c]) == Some(v as int)
                && -COORD_ABS_MAX_E7 <= v <= COORD_ABS_MAX_E7,
            None => attr_coord(attrs_view(attrs@), seq![a, b, c]) is None,
        },
{
    let ghost name = seq![a, b, c];
    let ghost full = attrs_view(attrs@);
    let n = attrs.len();
    let mut i: usize = 0;
    proof {
        assert(full.skip(0) =~= full);
    }
    while i < n
        invariant
            0 <= i <= n,
            n == attrs@.len(),
            full == attrs_view(attrs@),
            name == seq![a, b, c],
            find_attr(full, name) == find_attr(full.skip(i as int), name),
        decreases n - i,
    {
        let hit = name3(&attrs[i].name, a, b, c);
        proof {
            assert(full.skip(i as int)[0] == attrs@[i as int]@);
            assert(full.skip(i as int).drop_first() =~= full.skip(i + 1));
        }
        if hit {
            let value = copy_range(&attrs[i].value, 0, attrs[i].value.len());
            proof {
                assert(value@ =~= attrs@[i as int]@.value);
                assert(find_attr(full, name) == Some(attrs@[i as int]@.value));
            }
            return parse_coord(&value);
        }
        i = i + 1;
    }
    proof {
        assert(full.skip(n as int) =~= Seq::<AttrModel>::empty());
    }
    None
}

/// Where the reader stands relative to the most recent point-start.
///
/// `bound` records whether that point-start actually produced a point (a
/// skipped point leaves no binding target, so later text cannot attach to
/// an earlier point). The depths count elements opened below the `trkpt`
/// tag and below the `time` tag; a timestamp window is open exactly in
/// `InTime` at depth zero.
#[derive(Clone, Copy, PartialEq, Eq, Structural, Debug)]
pub enum ReaderPlace {
    Outside,
    InPoint { depth: usize, bound: bool },
    InTime { depth: usize, bound: bool },
}

#[verifier::ext_equal]
pub struct ExtractState {
    pub place: ReaderPlace,
    pub points: Seq<TrackPointModel>,
    pub warns: Seq<Warning>,
}

pub open spec fn extract_init() -> ExtractState {
    ExtractState { place: ReaderPlace::Outside, points: Seq::empty(), warns: Seq::empty() }
}

/// Depth bookkeeping wraps at the top so the step stays total; a depth
/// anywhere near that point would need more nested elements than the input
/// has bytes.
pub open spec fn depth_up(depth: usize) -> usize {
    if depth == usize::MAX {
        0
    } else {
        (depth + 1) as usize
    }
}

fn bump_depth(depth: usize) -> (r: usize)
    ensures
        r == depth_up(depth),
{
    if depth == usize::MAX {
        0
    } else {
        depth + 1
    }
}

/// One token's effect on the extraction state.
pub open spec fn extract_step(st: ExtractState, t: TokenModel) -> ExtractState {
    match t {
        TokenModel::Open { name, attrs } => {
            if name == trkpt_name() {
                match attr_coord(attrs, lon_name()) {
                    None => ExtractState {
                        place: ReaderPlace::InPoint { depth: 0, bound: false },
                        points: st.points,
                        warns: st.warns.push(Warning::InvalidLongitude),
                    },
                    Some(lonv) => match attr_coord(attrs, lat_name()) {
                        None => ExtractState {
                            place: ReaderPlace::InPoint { depth: 0, bound: false },
                            points: st.points,
                            warns: st.warns.push(Warning::InvalidLatitude),
                        },
                        Some(latv) => ExtractState {
                            place: ReaderPlace::InPoint { depth: 0, bound: true },
                            points: st.points.push(
                                TrackPointModel { lat_e7: latv, lon_e7: lonv, time: None },
                            ),
                            warns: st.warns,
                        },
                    },
                }
            } else {
                ExtractState {
                    place: match st.place {
                        ReaderPlace::Outside => ReaderPlace::Outside,
                        ReaderPlace::InPoint { depth, bound } => {
                            if name == time_name() && depth == 0 {
                                ReaderPlace::InTime { depth: 0, bound }
                            } else {
                                ReaderPlace::InPoint { depth: depth_up(depth), bound }
                            }
                        },
                        ReaderPlace::InTime { depth, bound } => ReaderPlace::InTime {
                            depth: depth_up(depth),
                            bound,
                        },
                    },
                    points: st.points,
                    warns: st.warns,
                }
            }
        },
        TokenModel::SelfClosed { name, attrs } => st,
        TokenModel::Close { name } => ExtractState {
            place: if name == trkpt_name() {
                ReaderPlace::Outside
            } else {
                match st.place {
                    ReaderPlace::Outside => ReaderPlace::Outside,
                    ReaderPlace::InPoint { depth, bound } => {
                        if depth > 0 {
                            ReaderPlace::InPoint { depth: ((depth - 1) as usize), bound }
                        } else {
                            ReaderPlace::InPoint { depth: 0, bound }
                        }
                    },
                    ReaderPlace::InTime { depth, bound } => {
                        if depth > 0 {
                            ReaderPlace::InTime { depth: ((depth - 1) as usize), bound }
                        } else {
                            ReaderPlace::InPoint { depth: 0, bound }
                        }
                    },
                }
            },
            points: st.points,
            warns: st.warns,
        },
        TokenModel::Text { content } => {
            match st.place {
                ReaderPlace::InTime { depth: 0, bound: true } => {
                    if st.points.len() > 0 {
                        let last = st.points[st.points.len() - 1];
                        ExtractState {
                            place: st.place,
                            points: st.points.update(
                                st.points.len() - 1,
                                TrackPointModel {
                                    lat_e7: last.lat_e7,
                                    lon_e7: last.lon_e7,
                                    time: Some(content),
                                },
                            ),
                            warns: st.warns,
                        }
                    } else {
                        st
                    }
                },
                _ => st,
            }
        },
    }
}

/// Folds `extract_step` over the tokens from position `i` on.
pub open spec fn extract_fold(toks: Seq<TokenModel>, i: int, st: ExtractState) -> ExtractState
    decreases toks.len() - i,
{
    if i < 0 || i >= toks.len() {
        st
    } else {
        extract_fold(toks, i + 1, extract_step(st, toks[i]))
    }
}

/// The track points and warnings of a whole token stream, in document order.
pub open spec fn extracted(toks: Seq<TokenModel>) -> ExtractState {
    extract_fold(toks, 0, extract_init())
}

/// Runs the extraction machine over a token stream.
///
/// Every returned point carries coordinates within 180 degrees either way:
/// anything larger was rejected at the attribute parse.
#[verifier::rlimit(100)]
pub fn extract_points(toks: &Vec<Token>) -> (r: (Vec<TrackPoint>, Vec<Warning>))
    ensures
        points_view(r.0@) == extracted(token_views(toks@)).points,
        r.1@ == extracted(token_views(toks@)).warns,
        forall|k: int|
            0 <= k < r.0@.len() ==> -COORD_ABS_MAX_E7 <= #[trigger] r.0@[k].lat_e7
                <= COORD_ABS_MAX_E7 && -COORD_ABS_MAX_E7 <= r.0@[k].lon_e7 <= COORD_ABS_MAX_E7,
{
    let ghost tv = token_views(toks@);
    let n = toks.len();
    let mut place = ReaderPlace::Outside;
    let mut points: Vec<TrackPoint> = Vec::new();
    let mut warns: Vec<Warning> = Vec::new();
    let mut i: usize = 0;
    proof {
        assert(points_view(points@) =~= Seq::<TrackPointModel>::empty());
        assert(ExtractState { place, points: points_view(points@), warns: warns@ }
            =~= extract_init());
    }
    while i < n
        invariant
            0 <= i <= n,
            n == toks@.len(),
            tv == token_views(toks@),
            extracted(tv) == extract_fold(
                tv,
                i as int,
                ExtractState { place, points: points_view(points@), warns: warns@ },
            ),
            forall|k: int|
                0 <= k < points@.len() ==> -COORD_ABS_MAX_E7 <= #[trigger] points@[k].lat_e7
                    <= COORD_ABS_MAX_E7 && -COORD_ABS_MAX_E7 <= points@[k].lon_e7
                    <= COORD_ABS_MAX_E7,
        decreases n - i,
    {
        let ghost cur = ExtractState { place, points: points_view(points@), warns: warns@ };
        let ghost pre_points = points@;
        proof {
            assert(tv[i as int] == toks@[i as int]@);
            assert(extract_fold(tv, i as int, cur) == extract_fold(
                tv,
                i + 1,
                extract_step(cur, tv[i as int]),
            ));
        }
        let tok = &toks[i];
        match tok {
            Token::Open { name, attrs } => {
                if is_trkpt(name) {
                    match read_attr_coord(attrs, 108, 111, 110) {
                        None => {
                            place = ReaderPlace::InPoint { depth: 0, bound: false };
                            warns.push(Warning::InvalidLongitude);
                        },
                        Some(lonv) => {
                            match read_attr_coord(attrs, 108, 97, 116) {
                                None => {
                                    place = ReaderPlace::InPoint { depth: 0, bound: false };
                                    warns.push(Warning::InvalidLatitude);
                                },
                                Some(latv) => {
                                    place = ReaderPlace::InPoint { depth: 0, bound: true };
                                    let p = TrackPoint {
                                        lat_e7: latv,
                                        lon_e7: lonv,
                                        time: None,
                                    };
                                    proof {
                                        assert(points_view(points@.push(p)) =~= points_view(
                                            points@,
                                        ).push(p@));
                                        assert(-COORD_ABS_MAX_E7 <= p.lat_e7 <= COORD_ABS_MAX_E7);
                                        assert(-COORD_ABS_MAX_E7 <= p.lon_e7 <= COORD_ABS_MAX_E7);
                                        assert(forall|k: int|
                                            0 <= k < points@.len() ==> points@.push(p)[k]
                                                == points@[k]);
                                        assert(points@.push(p)[points@.len() as int] == p);
                                    }
                                    points.push(p);
                                },
                            }
                        },
                    }
                } else {
                    let in_time_start = is_time(name);
                    place = match place {
                        ReaderPlace::Outside => ReaderPlace::Outside,
                        ReaderPlace::InPoint { depth, bound } => {
                            if in_time_start && depth == 0 {
                                ReaderPlace::InTime { depth: 0, bound }
                            } else {
                                ReaderPlace::InPoint { depth: bump_depth(depth), bound }
                            }
                        },
                        ReaderPlace::InTime { depth, bound } => ReaderPlace::InTime {
                            depth: bump_depth(depth),
                            bound,
                        },
                    };
                }
            },
            Token::SelfClosed { name, attrs } => {},
            Token::Close { name } => {
                if is_trkpt(name) {
                    place = ReaderPlace::Outside;
                } else {
                    place = match place {
                        ReaderPlace::Outside => ReaderPlace::Outside,
                        ReaderPlace::InPoint { depth, bound } => {
                            if depth > 0 {
                                ReaderPlace::InPoint { depth: depth - 1, bound }
                            } else {
                                ReaderPlace::InPoint { depth: 0, bound }
                            }
                        },
                        ReaderPlace::InTime { depth, bound } => {
                            if depth > 0 {
                                ReaderPlace::InTime { depth: depth - 1, bound }
                            } else {
                                ReaderPlace::InPoint { depth: 0, bound }
                            }
                        },
                    };
                }
            },
            Token::Text { content } => {
                let mut bind = false;
                match place {
                    ReaderPlace::InTime { depth, bound } => {
                        if depth == 0 && bound && points.len() > 0 {
                            bind = true;
                        }
                    },
                    _ => {},
                }
                if bind {
                    let idx = points.len() - 1;
                    let time = copy_range(content, 0, content.len());
                    proof {
                        assert(time@ =~= content@);
                    }
                    let np = TrackPoint {
                        lat_e7: points[idx].lat_e7,
                        lon_e7: points[idx].lon_e7,
                        time: Some(time),
                    };
                    proof {
                        assert(points_view(points@.update(idx as int, np)) =~= points_view(
                            points@,
                        ).update(idx as int, np@));
                        assert(np@.lat_e7 == points_view(points@)[idx as int].lat_e7);
                        assert(np@.lon_e7 == points_view(points@)[idx as int].lon_e7);
                        assert(forall|k: int|
                            0 <= k < points@.len() && k != idx ==> points@.update(
                                idx as int,
                                np,
                            )[k] == points@[k]);
                    }
                    points[idx] = np;
                }
            },
        }
        proof {
            assert(ExtractState { place, points: points_view(points@), warns: warns@ }
                =~= extract_step(cur, tv[i as int]));
            assert forall|k: int|
                0 <= k < points@.len() implies -COORD_ABS_MAX_E7 <= #[trigger] points@[k].lat_e7
                    <= COORD_ABS_MAX_E7 && -COORD_ABS_MAX_E7 <= points@[k].lon_e7
                    <= COORD_ABS_MAX_E7 by {
                if k < pre_points.len() && points@[k] == pre_points[k] {
                    assert(-COORD_ABS_MAX_E7 <= pre_points[k].lat_e7 <= COORD_ABS_MAX_E7);
                }
            }
        }
        i = i + 1;
    }
    (points, warns)
}

} // verus!
