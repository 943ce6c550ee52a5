//! The CAD drawing format.
//!
//! The library works on a plain model of a drawing: an entity list for
//! reading, and a document of layers, entities and a viewport for
//! writing.  The shell around the library converts between this model
//! and the CAD codec's own document, whose coordinates are
//! floating-point; one drawing unit is `numeric::SCALE` ticks here.
//!
//! Reading recovers a point from every circle (its center) and line
//! (both endpoints).  A point's name comes from a text label whose
//! anchor rounds to the same millimeter as the point; points with no
//! label are named `A1`, `A2`, ... in discovery order.  A point's code
//! is its entity's layer name, trimmed and upper-cased.

use vstd::prelude::*;
use crate::geometry::Point;
use crate::geometry::PointV;
use crate::geometry::passes_filter;
use crate::format::nikon::filter_contains;
use crate::numeric::dec_rep;
use crate::numeric::push_dec_u128;
use crate::text::chars_to_string;
use crate::text::string_to_chars;
use crate::text::to_upper_chars;
use crate::text::trim_chars;
use crate::text::trim_spec;
use crate::text::upper_spec;

verus! {

/// A drawing entity, as read from a document.
pub enum DxfEntity {
    /// A circle: its center marks a point.
    Circle { layer: String, x: i64, y: i64, z: i64 },
    /// A line: each endpoint marks a point.
    Line { layer: String, x1: i64, y1: i64, z1: i64, x2: i64, y2: i64, z2: i64 },
    /// A text label: names the point it sits on.
    Text { layer: String, x: i64, y: i64, value: String },
    /// Any entity of another kind; ignored.
    Other,
}

/// The mathematical value of a drawing entity.
pub ghost enum DxfEntityV {
    Circle { layer: Seq<char>, x: int, y: int, z: int },
    Line { layer: Seq<char>, x1: int, y1: int, z1: int, x2: int, y2: int, z2: int },
    Text { layer: Seq<char>, x: int, y: int, value: Seq<char> },
    Other,
}

impl View for DxfEntity {
    type V = DxfEntityV;

    open spec fn view(&self) -> DxfEntityV {
        match self {
            DxfEntity::Circle { layer, x, y, z } => DxfEntityV::Circle {
                layer: layer@,
                x: *x as int,
                y: *y as int,
                z: *z as int,
            },
            DxfEntity::Line { layer, x1, y1, z1, x2, y2, z2 } => DxfEntityV::Line {
                layer: layer@,
                x1: *x1 as int,
                y1: *y1 as int,
                z1: *z1 as int,
                x2: *x2 as int,
                y2: *y2 as int,
                z2: *z2 as int,
            },
            DxfEntity::Text { layer, x, y, value } => DxfEntityV::Text {
                layer: layer@,
                x: *x as int,
                y: *y as int,
                value: value@,
            },
            DxfEntity::Other => DxfEntityV::Other,
        }
    }
}

impl DeepView for DxfEntity {
    type V = DxfEntityV;

    open spec fn deep_view(&self) -> DxfEntityV {
        self.view()
    }
}

/// A coordinate in ticks rounded to the nearest millimeter, halves
/// away from zero: the snap that matches labels to points.
pub open spec fn round_millis(m: int) -> int {
    if m >= 0 {
        (m + 500) / 1000
    } else {
        -((-m + 500) / 1000)
    }
}

pub fn round_millis_exec(m: i64) -> (r: i64)
    ensures
        r as int == round_millis(m as int),
{
    if m >= 0 {
        (((m as u64) + 500) / 1000) as i64
    } else {
        let mag = ((-(m + 1)) as u64) + 1;
        -(((mag + 500) / 1000) as i64)
    }
}

/// The millimeter cell a label or point coordinate falls in.
pub open spec fn snap_key(x: int, y: int) -> (int, int) {
    (round_millis(x), round_millis(y))
}

/// The label lookup built by the first pass: the text value at every
/// snapped position, later labels overriding earlier ones.
pub open spec fn label_map(entities: Seq<DxfEntityV>) -> Map<(int, int), Seq<char>>
    decreases entities.len(),
{
    if entities.len() == 0 {
        Map::<(int, int), Seq<char>>::empty()
    } else {
        let m = label_map(entities.drop_last());
        match entities.last() {
            DxfEntityV::Text { layer, x, y, value } => m.insert(snap_key(x, y), value),
            _ => m,
        }
    }
}

/// The auto-generated name of the n-th unlabeled point.
pub open spec fn auto_name(counter: nat) -> Seq<char> {
    seq!['A'] + dec_rep(counter)
}

/// The point contributed at one position, and the auto-name counter
/// after it: a co-located label names the point, else the counter
/// names it and advances.
pub open spec fn point_of(
    labels: Map<(int, int), Seq<char>>,
    layer: Seq<char>,
    x: int,
    y: int,
    z: int,
    counter: nat,
) -> (PointV, nat) {
    let k = snap_key(x, y);
    let code = upper_spec(trim_spec(layer));
    if labels.contains_key(k) {
        (
            PointV { east: x, north: y, elev: z, name: trim_spec(labels[k]), code },
            counter,
        )
    } else {
        (PointV { east: x, north: y, elev: z, name: auto_name(counter), code }, counter + 1)
    }
}

/// The points of the entity list, in entity order, threading the
/// auto-name counter left to right (a line contributes both endpoints,
/// first then second).
pub open spec fn dxf_points_spec(
    entities: Seq<DxfEntityV>,
    labels: Map<(int, int), Seq<char>>,
    counter: nat,
) -> Seq<PointV>
    decreases entities.len(),
{
    if entities.len() == 0 {
        Seq::<PointV>::empty()
    } else {
        match entities[0] {
            DxfEntityV::Circle { layer, x, y, z } => {
                let (p, c1) = point_of(labels, layer, x, y, z, counter);
                seq![p] + dxf_points_spec(entities.drop_first(), labels, c1)
            },
            DxfEntityV::Line { layer, x1, y1, z1, x2, y2, z2 } => {
                let (p1, c1) = point_of(labels, layer, x1, y1, z1, counter);
                let (p2, c2) = point_of(labels, layer, x2, y2, z2, c1);
                seq![p1, p2] + dxf_points_spec(entities.drop_first(), labels, c2)
            },
            _ => dxf_points_spec(entities.drop_first(), labels, counter),
        }
    }
}

/// What parsing a drawing yields: two passes, labels first, then the
/// geometric entities, with the counter starting at one.
pub open spec fn dxf_parse_spec(entities: Seq<DxfEntityV>) -> Seq<PointV> {
    dxf_points_spec(entities, label_map(entities), 1)
}

/// Distinct counter values yield distinct auto-generated names, so an
/// auto name is never reused within one parse.
pub proof fn lemma_auto_names_distinct(c1: nat, c2: nat)
    requires
        c1 != c2,
    ensures
        auto_name(c1) != auto_name(c2),
{
    crate::numeric::lemma_dec_rep(c1);
    crate::numeric::lemma_dec_rep(c2);
    if auto_name(c1) == auto_name(c2) {
        assert(auto_name(c1).skip(1) =~= dec_rep(c1));
        assert(auto_name(c2).skip(1) =~= dec_rep(c2));
        assert(dec_rep(c1) == dec_rep(c2));
        assert(crate::numeric::digits_val(dec_rep(c1)) == crate::numeric::digits_val(
            dec_rep(c2),
        ));
        assert(false);
    }
}

/// One row of the label lookup table.
struct LabelEntry {
    kx: i64,
    ky: i64,
    value: String,
}

/// The lookup a label table denotes; later rows override earlier ones.
spec fn table_map(t: Seq<LabelEntry>) -> Map<(int, int), Seq<char>>
    decreases t.len(),
{
    if t.len() == 0 {
        Map::<(int, int), Seq<char>>::empty()
    } else {
        table_map(t.drop_last()).insert((t.last().kx as int, t.last().ky as int), t.last().value@)
    }
}

/// Look a snapped position up, newest row first.
fn table_get(t: &Vec<LabelEntry>, kx: i64, ky: i64) -> (r: Option<String>)
    ensures
        match r {
            Some(v) => table_map(t@).contains_key((kx as int, ky as int)) && v@
                == table_map(t@)[(kx as int, ky as int)],
            None => !table_map(t@).contains_key((kx as int, ky as int)),
        },
{
    let ghost key = (kx as int, ky as int);
    let mut j = t.len();
    proof {
        assert(t@.take(t@.len() as int) =~= t@);
    }
    while j > 0
        invariant
            key == (kx as int, ky as int),
            j <= t@.len(),
            table_map(t@).contains_key(key) == table_map(t@.take(j as int)).contains_key(
                key,
            ),
            table_map(t@).contains_key(key) ==> table_map(t@)[key] == table_map(
                t@.take(j as int),
            )[key],
        decreases j,
    {
        let ghost rowkey = (t@[j - 1].kx as int, t@[j - 1].ky as int);
        proof {
            assert(t@.take(j as int).drop_last() =~= t@.take(j - 1));
            assert(t@.take(j as int).last() == t@[j - 1]);
            assert(table_map(t@.take(j as int)) == table_map(t@.take(j - 1)).insert(
                rowkey,
                t@[j - 1].value@,
            ));
        }
        if t[j - 1].kx == kx && t[j - 1].ky == ky {
            proof {
                assert(rowkey == key);
                assert(table_map(t@.take(j as int)).contains_key(key));
                assert(table_map(t@.take(j as int))[key] == t@[j - 1].value@);
            }
            return Some(t[j - 1].value.clone());
        }
        proof {
            assert(rowkey != key);
            assert(table_map(t@.take(j as int)).contains_key(key) == table_map(
                t@.take(j - 1),
            ).contains_key(key));
            assert(table_map(t@.take(j as int)).contains_key(key) ==> table_map(
                t@.take(j as int),
            )[key] == table_map(t@.take(j - 1))[key]);
        }
        j = j - 1;
    }
    proof {
        assert(t@.take(0) =~= Seq::<LabelEntry>::empty());
    }
    None
}

/// First pass: collect every label's snapped position and value.
fn build_label_table(entities: &Vec<DxfEntity>) -> (t: Vec<LabelEntry>)
    ensures
        table_map(t@) == label_map(entities.deep_view()),
{
    let n = entities.len();
    let ghost ev = entities.deep_view();
    let mut t: Vec<LabelEntry> = Vec::new();
    let mut i: usize = 0;
    proof {
        assert(t@.take(0) =~= Seq::<LabelEntry>::empty());
        assert(ev.take(0) =~= Seq::<DxfEntityV>::empty());
    }
    while i < n
        invariant
            i <= n,
            n == entities@.len(),
            ev == entities.deep_view(),
            table_map(t@) == label_map(ev.take(i as int)),
        decreases n - i,
    {
        proof {
            assert(ev.take(i + 1).drop_last() =~= ev.take(i as int));
            assert(ev.take(i + 1).last() == ev[i as int]);
            assert(ev[i as int] == entities@[i as int]@);
        }
        match &entities[i] {
            DxfEntity::Text { layer: _, x, y, value } => {
                let kx = round_millis_exec(*x);
                let ky = round_millis_exec(*y);
                let ghost old_t = t@;
                t.push(LabelEntry { kx, ky, value: value.clone() });
                proof {
                    assert(t@.drop_last() =~= old_t);
                    assert(t@.last() == t@[t@.len() - 1]);
                }
            },
            _ => {},
        }
        i = i + 1;
    }
    proof {
        assert(ev.take(n as int) =~= ev);
    }
    t
}

/// Resolve one position to a point: a co-located label names it, else
/// the counter does and advances.
fn make_point(
    table: &Vec<LabelEntry>,
    layer: &String,
    x: i64,
    y: i64,
    z: i64,
    counter: u128,
) -> (r: (Point, u128))
    requires
        counter < 0xffffffffffffffffffffffffffffffff,
    ensures
        ({
            let (pv, c2) = point_of(
                table_map(table@),
                layer@,
                x as int,
                y as int,
                z as int,
                counter as nat,
            );
            r.0@ == pv && r.1 as nat == c2
        }),
{
    let layer_chars = string_to_chars(layer.as_str());
    let code = chars_to_string(&to_upper_chars(&trim_chars(&layer_chars)));
    let kx = round_millis_exec(x);
    let ky = round_millis_exec(y);
    match table_get(table, kx, ky) {
        Some(v) => {
            let vc = string_to_chars(v.as_str());
            let name = chars_to_string(&trim_chars(&vc));
            (Point { east: x, north: y, elev: z, name, code }, counter)
        },
        None => {
            let mut nm: Vec<char> = Vec::new();
            nm.push('A');
            push_dec_u128(&mut nm, counter);
            proof {
                assert(nm@ =~= auto_name(counter as nat));
            }
            let name = chars_to_string(&nm);
            (Point { east: x, north: y, elev: z, name, code }, counter + 1)
        },
    }
}

/// Reader for the drawing format.
pub struct DxfReader {
    pub entities: Vec<DxfEntity>,
}

impl DxfReader {
    /// A reader over a drawing's entity list.
    pub fn new(entities: Vec<DxfEntity>) -> (r: Self)
        ensures
            r.entities == entities,
    {
        Self { entities }
    }

    /// Extract the canonical points of the drawing: one per circle,
    /// two per line, named from co-located labels or auto-generated.
    pub fn parse(&mut self) -> (r: Vec<Point>)
        ensures
            r.deep_view() == dxf_parse_spec(old(self).entities.deep_view()),
            final(self).entities == old(self).entities,
    {
        let table = build_label_table(&self.entities);
        let ghost ev = self.entities.deep_view();
        let ghost labels = label_map(ev);
        let n = self.entities.len();
        let mut r: Vec<Point> = Vec::new();
        let mut counter: u128 = 1;
        let mut i: usize = 0;
        proof {
            assert(ev.skip(0) =~= ev);
            assert(r.deep_view() =~= Seq::<PointV>::empty());
        }
        while i < n
            invariant
                i <= n,
                n == self.entities@.len(),
                self == old(self),
                ev == self.entities.deep_view(),
                table_map(table@) == labels,
                1 <= counter <= 1 + 2 * (i as int),
                dxf_points_spec(ev, labels, 1) == r.deep_view() + dxf_points_spec(
                    ev.skip(i as int),
                    labels,
                    counter as nat,
                ),
            decreases n - i,
        {
            proof {
                assert(ev.skip(i as int)[0] == ev[i as int]);
                assert(ev[i as int] == self.entities@[i as int]@);
                assert(ev.skip(i as int).drop_first() =~= ev.skip(i + 1));
            }
            let ghost old_deep = r.deep_view();
            match &self.entities[i] {
                DxfEntity::Circle { layer, x, y, z } => {
                    let (p, c1) = make_point(&table, layer, *x, *y, *z, counter);
                    r.push(p);
                    counter = c1;
                    proof {
                        assert(r.deep_view() =~= old_deep.push(p@));
                        assert(old_deep.push(p@) =~= old_deep + seq![p@]);
                    }
                },
                DxfEntity::Line { layer, x1, y1, z1, x2, y2, z2 } => {
                    let (p1, c1) = make_point(&table, layer, *x1, *y1, *z1, counter);
                    let (p2, c2) = make_point(&table, layer, *x2, *y2, *z2, c1);
                    r.push(p1);
                    r.push(p2);
                    counter = c2;
                    proof {
                        assert(r.deep_view() =~= old_deep.push(p1@).push(p2@));
                        assert(old_deep.push(p1@).push(p2@) =~= old_deep + seq![
                            p1@,
                            p2@,
                        ]);
                    }
                },
                _ => {},
            }
            i = i + 1;
        }
        proof {
            assert(ev.skip(n as int) =~= Seq::<DxfEntityV>::empty());
            assert(r.deep_view() =~= dxf_points_spec(ev, labels, 1));
        }
        r
    }
}


// ---- the written drawing model ----

/// Ticks of the fixed radius of a point marker circle (0.1 unit).
pub const MARKER_RADIUS: i64 = 100000;

/// Ticks of the fixed height of a name label (0.5 unit).
pub const LABEL_HEIGHT: i64 = 500000;

/// A named, colored layer of the written drawing.
pub struct LayerDef {
    pub name: String,
    pub color: u8,
}

pub ghost struct LayerDefV {
    pub name: Seq<char>,
    pub color: u8,
}

impl View for LayerDef {
    type V = LayerDefV;

    open spec fn view(&self) -> LayerDefV {
        LayerDefV { name: self.name@, color: self.color }
    }
}

impl DeepView for LayerDef {
    type V = LayerDefV;

    open spec fn deep_view(&self) -> LayerDefV {
        self.view()
    }
}

/// An entity of the written drawing.
pub enum DxfElement {
    /// A point marker of fixed radius.
    Circle { layer: String, x: i64, y: i64, z: i64, radius: i64 },
    /// A name label of fixed height.
    Text { layer: String, x: i64, y: i64, z: i64, height: i64, value: String },
    /// A connector between two points of one code.
    Line { layer: String, x1: i64, y1: i64, z1: i64, x2: i64, y2: i64, z2: i64 },
}

pub ghost enum DxfElementV {
    Circle { layer: Seq<char>, x: int, y: int, z: int, radius: int },
    Text { layer: Seq<char>, x: int, y: int, z: int, height: int, value: Seq<char> },
    Line { layer: Seq<char>, x1: int, y1: int, z1: int, x2: int, y2: int, z2: int },
}

impl View for DxfElement {
    type V = DxfElementV;

    open spec fn view(&self) -> DxfElementV {
        match self {
            DxfElement::Circle { layer, x, y, z, radius } => DxfElementV::Circle {
                layer: layer@,
                x: *x as int,
                y: *y as int,
                z: *z as int,
                radius: *radius as int,
            },
            DxfElement::Text { layer, x, y, z, height, value } => DxfElementV::Text {
                layer: layer@,
                x: *x as int,
                y: *y as int,
                z: *z as int,
                height: *height as int,
                value: value@,
            },
            DxfElement::Line { layer, x1, y1, z1, x2, y2, z2 } => DxfElementV::Line {
                layer: layer@,
                x1: *x1 as int,
                y1: *y1 as int,
                z1: *z1 as int,
                x2: *x2 as int,
                y2: *y2 as int,
                z2: *z2 as int,
            },
        }
    }
}

impl DeepView for DxfElement {
    type V = DxfElementV;

    open spec fn deep_view(&self) -> DxfElementV {
        self.view()
    }
}

/// The one viewport of the written drawing, centered on the bounding
/// box of all point coordinates.  `width` and `height` are the box
/// extents in ticks; the shell derives the aspect ratio from them and
/// must fall back to a fixed ratio when the height is zero.
pub struct Viewport {
    pub center_east: i64,
    pub center_north: i64,
    pub width: i128,
    pub height: i128,
}

pub ghost struct ViewportV {
    pub center_east: int,
    pub center_north: int,
    pub width: int,
    pub height: int,
}

impl View for Viewport {
    type V = ViewportV;

    open spec fn view(&self) -> ViewportV {
        ViewportV {
            center_east: self.center_east as int,
            center_north: self.center_north as int,
            width: self.width as int,
            height: self.height as int,
        }
    }
}

/// The written drawing document.
pub struct Drawing {
    pub layers: Vec<LayerDef>,
    pub entities: Vec<DxfElement>,
    pub viewport: Viewport,
}

pub ghost struct DrawingV {
    pub layers: Seq<LayerDefV>,
    pub entities: Seq<DxfElementV>,
    pub viewport: ViewportV,
}

impl View for Drawing {
    type V = DrawingV;

    open spec fn view(&self) -> DrawingV {
        DrawingV {
            layers: self.layers.deep_view(),
            entities: self.entities.deep_view(),
            viewport: self.viewport@,
        }
    }
}

/// The writer's running state while it walks the point sequence.
pub ghost struct WriteState {
    pub layers: Seq<LayerDefV>,
    pub entities: Seq<DxfElementV>,
    pub last: Map<Seq<char>, (int, int, int)>,
    pub color: u8,
    pub any: bool,
    pub min_e: int,
    pub max_e: int,
    pub min_n: int,
    pub max_n: int,
}

/// The palette index after registering one new code layer: the indices
/// cycle past the two fixed colors once the palette is exhausted.
pub open spec fn next_color(c: u8) -> u8 {
    if c == 255 {
        3
    } else {
        (c + 1) as u8
    }
}

/// The layer connectors of a code are drawn on: the code itself, or
/// the default layer for the empty code.
pub open spec fn connector_layer(code: Seq<char>) -> Seq<char> {
    if code.len() == 0 {
        "0"@
    } else {
        code
    }
}

/// The marker every point produces, never filtered.
pub open spec fn marker_spec(p: PointV) -> DxfElementV {
    DxfElementV::Circle {
        layer: "POINTS"@,
        x: p.east,
        y: p.north,
        z: p.elev,
        radius: MARKER_RADIUS as int,
    }
}

/// The label every named point produces, never filtered.
pub open spec fn label_spec(p: PointV) -> DxfElementV {
    DxfElementV::Text {
        layer: "TEXT"@,
        x: p.east,
        y: p.north,
        z: p.elev,
        height: LABEL_HEIGHT as int,
        value: p.name,
    }
}

/// The connector from the current point back to the last point of the
/// same code.
pub open spec fn connector_spec(p: PointV, lastp: (int, int, int)) -> DxfElementV {
    DxfElementV::Line {
        layer: connector_layer(p.code),
        x1: p.east,
        y1: p.north,
        z1: p.elev,
        x2: lastp.0,
        y2: lastp.1,
        z2: lastp.2,
    }
}

pub open spec fn bounds_step(st: WriteState, p: PointV) -> WriteState {
    if !st.any {
        WriteState {
            any: true,
            min_e: p.east,
            max_e: p.east,
            min_n: p.north,
            max_n: p.north,
            ..st
        }
    } else {
        WriteState {
            min_e: if p.east < st.min_e {
                p.east
            } else {
                st.min_e
            },
            max_e: if p.east > st.max_e {
                p.east
            } else {
                st.max_e
            },
            min_n: if p.north < st.min_n {
                p.north
            } else {
                st.min_n
            },
            max_n: if p.north > st.max_n {
                p.north
            } else {
                st.max_n
            },
            ..st
        }
    }
}

/// One point's effect on the drawing: its marker and label always; its
/// connector and any new code layer only when the connector layer
/// passes the filter; the last-point table always records it, keyed by
/// its raw code.
pub open spec fn write_step(st: WriteState, p: PointV, filter: Seq<Seq<char>>) -> WriteState {
    let st = bounds_step(st, p);
    let ents0 = st.entities.push(marker_spec(p));
    let ents = if p.name.len() > 0 {
        ents0.push(label_spec(p))
    } else {
        ents0
    };
    let lay = connector_layer(p.code);
    let newlast = st.last.insert(p.code, (p.east, p.north, p.elev));
    if filter.len() > 0 && !filter.contains(lay) {
        WriteState { entities: ents, last: newlast, ..st }
    } else if st.last.contains_key(p.code) {
        WriteState {
            entities: ents.push(connector_spec(p, st.last[p.code])),
            last: newlast,
            ..st
        }
    } else if p.code.len() > 0 {
        WriteState {
            entities: ents,
            layers: st.layers.push(LayerDefV { name: lay, color: st.color }),
            color: next_color(st.color),
            last: newlast,
            ..st
        }
    } else {
        WriteState { entities: ents, last: newlast, ..st }
    }
}

/// The state before any point: the two fixed layers (where the filter
/// admits them), the palette starting after the fixed colors, and an
/// empty bounding box.
pub open spec fn initial_state(filter: Seq<Seq<char>>) -> WriteState {
    let l0 = Seq::<LayerDefV>::empty();
    let l1 = if passes_filter(filter, "POINTS"@) {
        l0.push(LayerDefV { name: "POINTS"@, color: 1 })
    } else {
        l0
    };
    let l2 = if passes_filter(filter, "TEXT"@) {
        l1.push(LayerDefV { name: "TEXT"@, color: 2 })
    } else {
        l1
    };
    WriteState {
        layers: l2,
        entities: Seq::<DxfElementV>::empty(),
        last: Map::<Seq<char>, (int, int, int)>::empty(),
        color: 3,
        any: false,
        min_e: 0,
        max_e: 0,
        min_n: 0,
        max_n: 0,
    }
}

pub open spec fn fold_write(
    points: Seq<PointV>,
    filter: Seq<Seq<char>>,
    st: WriteState,
) -> WriteState
    decreases points.len(),
{
    if points.len() == 0 {
        st
    } else {
        fold_write(points.drop_first(), filter, write_step(st, points[0], filter))
    }
}

/// The viewport of a finished document: centered on the midpoint of
/// the bounding box (zero when there were no points), as high as the
/// box and as wide.
pub open spec fn viewport_spec(st: WriteState) -> ViewportV {
    ViewportV {
        center_east: st.min_e + (st.max_e - st.min_e) / 2,
        center_north: st.min_n + (st.max_n - st.min_n) / 2,
        width: st.max_e - st.min_e,
        height: st.max_n - st.min_n,
    }
}

/// The whole document the writer produces for a point sequence and a
/// layer filter.
pub open spec fn drawing_spec(points: Seq<PointV>, filter: Seq<Seq<char>>) -> DrawingV {
    let st = fold_write(points, filter, initial_state(filter));
    DrawingV { layers: st.layers, entities: st.entities, viewport: viewport_spec(st) }
}

proof fn lemma_fold_snoc(
    points: Seq<PointV>,
    p: PointV,
    filter: Seq<Seq<char>>,
    st: WriteState,
)
    ensures
        fold_write(points.push(p), filter, st) == write_step(
            fold_write(points, filter, st),
            p,
            filter,
        ),
    decreases points.len(),
{
    if points.len() == 0 {
        assert(points =~= Seq::<PointV>::empty());
        assert(points.push(p)[0] == p);
        assert(points.push(p).drop_first() =~= Seq::<PointV>::empty());
        assert(fold_write(Seq::<PointV>::empty(), filter, write_step(st, p, filter))
            == write_step(st, p, filter));
        assert(fold_write(points, filter, st) == st);
    } else {
        assert(points.push(p)[0] == points[0]);
        assert(points.push(p).drop_first() =~= points.drop_first().push(p));
        lemma_fold_snoc(
            points.drop_first(),
            p,
            filter,
            write_step(st, points[0], filter),
        );
    }
}

/// One row of the last-point-per-code table.
struct CodeEntry {
    code: String,
    x: i64,
    y: i64,
    z: i64,
}

/// The lookup a last-point table denotes; later rows override earlier
/// ones.
spec fn last_map(t: Seq<CodeEntry>) -> Map<Seq<char>, (int, int, int)>
    decreases t.len(),
{
    if t.len() == 0 {
        Map::<Seq<char>, (int, int, int)>::empty()
    } else {
        last_map(t.drop_last()).insert(
            t.last().code@,
            (t.last().x as int, t.last().y as int, t.last().z as int),
        )
    }
}

/// Look a code up, newest row first.
fn last_get(t: &Vec<CodeEntry>, code: &String) -> (r: Option<(i64, i64, i64)>)
    ensures
        match r {
            Some(v) => last_map(t@).contains_key(code@) && (
                v.0 as int,
                v.1 as int,
                v.2 as int,
            ) == last_map(t@)[code@],
            None => !last_map(t@).contains_key(code@),
        },
{
    let mut j = t.len();
    proof {
        assert(t@.take(t@.len() as int) =~= t@);
    }
    while j > 0
        invariant
            j <= t@.len(),
            last_map(t@).contains_key(code@) == last_map(t@.take(j as int)).contains_key(
                code@,
            ),
            last_map(t@).contains_key(code@) ==> last_map(t@)[code@] == last_map(
                t@.take(j as int),
            )[code@],
        decreases j,
    {
        let ghost rowkey = t@[j - 1].code@;
        proof {
            assert(t@.take(j as int).drop_last() =~= t@.take(j - 1));
            assert(t@.take(j as int).last() == t@[j - 1]);
            assert(last_map(t@.take(j as int)) == last_map(t@.take(j - 1)).insert(
                rowkey,
                (t@[j - 1].x as int, t@[j - 1].y as int, t@[j - 1].z as int),
            ));
        }
        if t[j - 1].code == *code {
            proof {
                assert(rowkey == code@);
                assert(last_map(t@.take(j as int)).contains_key(code@));
            }
            return Some((t[j - 1].x, t[j - 1].y, t[j - 1].z));
        }
        proof {
            assert(rowkey != code@);
            assert(last_map(t@.take(j as int)).contains_key(code@) == last_map(
                t@.take(j - 1),
            ).contains_key(code@));
            assert(last_map(t@.take(j as int)).contains_key(code@) ==> last_map(
                t@.take(j as int),
            )[code@] == last_map(t@.take(j - 1))[code@]);
        }
        j = j - 1;
    }
    proof {
        assert(t@.take(0) =~= Seq::<CodeEntry>::empty());
    }
    None
}

/// Writer for the drawing format.
pub struct DxfWriter {
    pub drawing: Drawing,
}

impl DxfWriter {
    /// Build the whole document for a point sequence and an optional
    /// uppercase layer filter: markers and labels for every point,
    /// connectors chaining same-code points where the filter admits
    /// their layer, one colored layer per new code, and the viewport.
    pub fn new(objects: Vec<Point>, layers: Vec<String>) -> (r: Self)
        ensures
            r.drawing@ == drawing_spec(objects.deep_view(), layers.deep_view()),
    {
        let ghost pv = objects.deep_view();
        let ghost fv = layers.deep_view();
        let mut layer_defs: Vec<LayerDef> = Vec::new();
        if layers.len() == 0 || filter_contains(&layers, &String::from_str("POINTS")) {
            layer_defs.push(LayerDef { name: String::from_str("POINTS"), color: 1 });
        }
        if layers.len() == 0 || filter_contains(&layers, &String::from_str("TEXT")) {
            layer_defs.push(LayerDef { name: String::from_str("TEXT"), color: 2 });
        }
        let mut entities: Vec<DxfElement> = Vec::new();
        let mut last: Vec<CodeEntry> = Vec::new();
        let mut color: u8 = 3;
        let mut any = false;
        let mut min_e: i64 = 0;
        let mut max_e: i64 = 0;
        let mut min_n: i64 = 0;
        let mut max_n: i64 = 0;
        let ghost st0 = initial_state(fv);
        proof {
            assert(layer_defs.deep_view() =~= st0.layers);
            assert(entities.deep_view() =~= st0.entities);
            assert(last@.take(0) =~= Seq::<CodeEntry>::empty());
            assert(last_map(last@) =~= st0.last);
            assert(pv.take(0) =~= Seq::<PointV>::empty());
        }
        let n = objects.len();
        let mut i: usize = 0;
        while i < n
            invariant
                i <= n,
                n == objects@.len(),
                pv == objects.deep_view(),
                fv == layers.deep_view(),
                ({
                    let st = fold_write(pv.take(i as int), fv, initial_state(fv));
                    &&& layer_defs.deep_view() == st.layers
                    &&& entities.deep_view() == st.entities
                    &&& last_map(last@) == st.last
                    &&& color == st.color
                    &&& any == st.any
                    &&& min_e as int == st.min_e
                    &&& max_e as int == st.max_e
                    &&& min_n as int == st.min_n
                    &&& max_n as int == st.max_n
                    &&& min_e <= max_e
                    &&& min_n <= max_n
                }),
            decreases n - i,
        {
            let ghost st = fold_write(pv.take(i as int), fv, initial_state(fv));
            let ghost pnt = pv[i as int];
            proof {
                assert(pnt == objects@[i as int]@);
                assert(pv.take(i + 1) =~= pv.take(i as int).push(pnt));
                lemma_fold_snoc(pv.take(i as int), pnt, fv, initial_state(fv));
            }
            let p = &objects[i];
            if !any {
                any = true;
                min_e = p.east;
                max_e = p.east;
                min_n = p.north;
                max_n = p.north;
            } else {
                if p.east < min_e {
                    min_e = p.east;
                }
                if p.east > max_e {
                    max_e = p.east;
                }
                if p.north < min_n {
                    min_n = p.north;
                }
                if p.north > max_n {
                    max_n = p.north;
                }
            }
            let ghost ents_before = entities.deep_view();
            entities.push(DxfElement::Circle {
                layer: String::from_str("POINTS"),
                x: p.east,
                y: p.north,
                z: p.elev,
                radius: MARKER_RADIUS,
            });
            proof {
                assert(entities.deep_view() =~= ents_before.push(marker_spec(pnt)));
            }
            if !p.name.as_str().is_empty() {
                let ghost e1 = entities.deep_view();
                entities.push(DxfElement::Text {
                    layer: String::from_str("TEXT"),
                    x: p.east,
                    y: p.north,
                    z: p.elev,
                    height: LABEL_HEIGHT,
                    value: p.name.clone(),
                });
                proof {
                    assert(entities.deep_view() =~= e1.push(label_spec(pnt)));
                }
            }
            let lay: String = if p.code.as_str().is_empty() {
                String::from_str("0")
            } else {
                p.code.clone()
            };
            proof {
                assert(lay@ == connector_layer(pnt.code));
            }
            let pass = layers.len() == 0 || filter_contains(&layers, &lay);
            proof {
                assert(pass == !(fv.len() > 0 && !fv.contains(connector_layer(
                    pnt.code,
                ))));
            }
            if pass {
                match last_get(&last, &p.code) {
                    Some(lp) => {
                        let ghost e2 = entities.deep_view();
                        entities.push(DxfElement::Line {
                            layer: lay,
                            x1: p.east,
                            y1: p.north,
                            z1: p.elev,
                            x2: lp.0,
                            y2: lp.1,
                            z2: lp.2,
                        });
                        proof {
                            assert(entities.deep_view() =~= e2.push(connector_spec(
                                pnt,
                                last_map(last@)[pnt.code],
                            )));
                        }
                    },
                    None => {
                        if !p.code.as_str().is_empty() {
                            let ghost l1 = layer_defs.deep_view();
                            layer_defs.push(LayerDef { name: lay, color });
                            proof {
                                assert(layer_defs.deep_view() =~= l1.push(LayerDefV {
                                    name: connector_layer(pnt.code),
                                    color,
                                }));
                            }
                            color = if color == 255 {
                                3
                            } else {
                                color + 1
                            };
                        }
                    },
                }
            }
            let ghost last_before = last@;
            last.push(CodeEntry { code: p.code.clone(), x: p.east, y: p.north, z: p.elev });
            proof {
                assert(last@.drop_last() =~= last_before);
                assert(last_map(last@) =~= last_map(last_before).insert(
                    pnt.code,
                    (pnt.east, pnt.north, pnt.elev),
                ));
            }
            i = i + 1;
        }
        proof {
            assert(pv.take(n as int) =~= pv);
        }
        let ghost stf = fold_write(pv, fv, initial_state(fv));
        let w: i128 = (max_e as i128) - (min_e as i128);
        let h: i128 = (max_n as i128) - (min_n as i128);
        let half_w: i128 = ((w as u128) / 2) as i128;
        let half_n: i128 = ((h as u128) / 2) as i128;
        let ce: i64 = ((min_e as i128) + half_w) as i64;
        let cn: i64 = ((min_n as i128) + half_n) as i64;
        let viewport = Viewport { center_east: ce, center_north: cn, width: w, height: h };
        proof {
            assert(viewport@ == viewport_spec(stf));
        }
        let drawing = Drawing { layers: layer_defs, entities, viewport };
        proof {
            assert(drawing@ == drawing_spec(pv, fv));
        }
        Self { drawing }
    }

    /// Hand the finished document out for serialization.
    pub fn render(&self) -> (r: &Drawing)
        ensures
            r == &self.drawing,
    {
        &self.drawing
    }
}


/// Markers in an element list.
pub open spec fn circle_count(es: Seq<DxfElementV>) -> int
    decreases es.len(),
{
    if es.len() == 0 {
        0
    } else {
        circle_count(es.drop_last()) + if es.last() is Circle {
            1int
        } else {
            0int
        }
    }
}

/// Labels in an element list.
pub open spec fn label_count(es: Seq<DxfElementV>) -> int
    decreases es.len(),
{
    if es.len() == 0 {
        0
    } else {
        label_count(es.drop_last()) + if es.last() is Text {
            1int
        } else {
            0int
        }
    }
}

/// Points with a non-empty name.
pub open spec fn named_count(points: Seq<PointV>) -> int
    decreases points.len(),
{
    if points.len() == 0 {
        0
    } else {
        (if points[0].name.len() > 0 {
            1int
        } else {
            0int
        }) + named_count(points.drop_first())
    }
}

proof fn lemma_count_push(es: Seq<DxfElementV>, e: DxfElementV)
    ensures
        circle_count(es.push(e)) == circle_count(es) + (if e is Circle {
            1int
        } else {
            0int
        }),
        label_count(es.push(e)) == label_count(es) + (if e is Text {
            1int
        } else {
            0int
        }),
{
    assert(es.push(e).drop_last() =~= es);
    assert(es.push(e).last() == e);
}

proof fn lemma_step_counts(st: WriteState, p: PointV, filter: Seq<Seq<char>>)
    ensures
        circle_count(write_step(st, p, filter).entities) == circle_count(st.entities)
            + 1,
        label_count(write_step(st, p, filter).entities) == label_count(st.entities)
            + (if p.name.len() > 0 {
            1int
        } else {
            0int
        }),
{
    let stb = bounds_step(st, p);
    let ents0 = stb.entities.push(marker_spec(p));
    lemma_count_push(stb.entities, marker_spec(p));
    let ents = if p.name.len() > 0 {
        ents0.push(label_spec(p))
    } else {
        ents0
    };
    if p.name.len() > 0 {
        lemma_count_push(ents0, label_spec(p));
    }
    if !(filter.len() > 0 && !filter.contains(connector_layer(p.code)))
        && st.last.contains_key(p.code) {
        lemma_count_push(ents, connector_spec(p, st.last[p.code]));
    }
}

proof fn lemma_fold_counts(points: Seq<PointV>, filter: Seq<Seq<char>>, st: WriteState)
    ensures
        circle_count(fold_write(points, filter, st).entities) == circle_count(
            st.entities,
        ) + points.len(),
        label_count(fold_write(points, filter, st).entities) == label_count(
            st.entities,
        ) + named_count(points),
    decreases points.len(),
{
    if points.len() > 0 {
        lemma_step_counts(st, points[0], filter);
        lemma_fold_counts(points.drop_first(), filter, write_step(st, points[0], filter));
    }
}

/// Markers and labels are never filtered: whatever the layer filter,
/// the written drawing holds exactly one marker per point and one
/// label per named point.
pub proof fn lemma_markers_and_labels_survive_filtering(
    points: Seq<PointV>,
    filter: Seq<Seq<char>>,
)
    ensures
        circle_count(drawing_spec(points, filter).entities) == points.len(),
        label_count(drawing_spec(points, filter).entities) == named_count(points),
{
    let st0 = initial_state(filter);
    assert(circle_count(st0.entities) == 0);
    assert(label_count(st0.entities) == 0);
    lemma_fold_counts(points, filter, st0);
}

} // verus!
