//! The damage tracker: per-output state and the frame analysis.
//!
//! One tracker serves one output.  Each frame the caller hands it the scene's
//! elements, front to back, together with the age of the back buffer; the
//! tracker answers with the rectangles that must be repainted and a report of
//! each element's visibility, and [`DamageTrackedRenderer::render_output`]
//! additionally paints them through a caller-supplied backend.

use vstd::prelude::*;
use std::collections::VecDeque;
use crate::geometry::{
    Point, Rect, Scale, Size, Transform, all_bounded, covers, pairwise_disjoint, all_valid,
    all_nonempty, all_contained_in, spec_intersection, spec_clip_translate, spec_subtract_all,
    spec_sum_areas,
};
use crate::element::{Element, ElemInfo};
use crate::backend::{Backend, RenderElement, Color};
use crate::index_map::{index_entries, keys_distinct, index_map_new, index_map_insert,
    index_map_get, index_map_pairs};

verus! {

broadcast use vstd::std_specs::hash::group_hash_axioms;

/// One appearance of an element in the previous frame: where it was, and at
/// which scene position.
#[derive(Clone, Copy, Debug, PartialEq, Eq, Structural)]
pub struct ElementInstanceState {
    /// The instance's geometry, unclipped, in physical pixels.
    pub last_geometry: Rect,
    /// The instance's scene position (0 = frontmost visible element).
    pub last_z_index: usize,
}

impl ElementInstanceState {
    /// Whether this instance sat at exactly this place and scene position.
    pub fn matches(&self, geometry: Rect, z_index: usize) -> (r: bool)
        ensures
            r == (self.last_geometry == geometry && self.last_z_index == z_index),
    {
        self.last_geometry == geometry && self.last_z_index == z_index
    }
}

/// Everything remembered about one element id between frames.
#[derive(Debug)]
pub struct ElementState {
    /// Commit counter sampled when the element was last analysed.
    pub last_commit: u64,
    /// All appearances of the id, in scene order.
    pub last_instances: Vec<ElementInstanceState>,
}

impl ElementState {
    /// Whether some remembered instance sits at `geometry` with scene
    /// position `z_index`.
    pub fn instance_matches(&self, geometry: Rect, z_index: usize) -> (r: bool)
        ensures
            r == exists|i: int|
                0 <= i < self.last_instances@.len() && (#[trigger] self.last_instances@[
                    i
                ]).last_geometry == geometry && self.last_instances@[i].last_z_index == z_index,
    {
        let mut k: usize = 0;
        while k < self.last_instances.len()
            invariant
                k <= self.last_instances@.len(),
                forall|i: int|
                    0 <= i < k ==> !((#[trigger] self.last_instances@[i]).last_geometry == geometry
                        && self.last_instances@[i].last_z_index == z_index),
            decreases self.last_instances@.len() - k,
        {
            let inst = self.last_instances[k];
            if inst.matches(geometry, z_index) {
                return true;
            }
            k = k + 1;
        }
        false
    }
}

/// What the tracker remembers about one element id, as a value.
#[verifier::ext_equal]
pub ghost struct EntryView {
    /// The element id.
    pub id: u64,
    /// Commit counter sampled when the id was last analysed.
    pub commit: u64,
    /// Geometry and scene position of every appearance, in scene order.
    pub instances: Seq<(Rect, int)>,
}

/// The tracker's whole inter-frame memory, as a value.
#[verifier::ext_equal]
pub ghost struct StateView {
    /// Size of the output as of the last analysed frame, if any.
    pub size: Option<Size>,
    /// Remembered elements, in scene order of their first appearance.
    pub elements: Seq<EntryView>,
    /// Per-frame damage of recent frames, most recent first.
    pub old_damage: Seq<Seq<Rect>>,
}

/// The remembered entries encoded by an id table and its side table.
pub closed spec fn group_view(ids: &indexmap::IndexMap<u64, usize>, states: &Vec<ElementState>)
    -> Seq<EntryView> {
    Seq::new(
        index_entries(ids).len(),
        |i: int|
            EntryView {
                id: index_entries(ids)[i].0,
                commit: states@[i].last_commit,
                instances: Seq::new(
                    states@[i].last_instances@.len(),
                    |j: int|
                        (
                            states@[i].last_instances@[j].last_geometry,
                            states@[i].last_instances@[j].last_z_index as int,
                        ),
                ),
            },
    )
}

/// The tracker's inter-frame memory.
pub struct RendererState {
    size: Option<Size>,
    ids: indexmap::IndexMap<u64, usize>,
    states: Vec<ElementState>,
    old_damage: VecDeque<Vec<Rect>>,
}

impl RendererState {
    /// The id table and the side table line up: pair `i` of the map names
    /// entry `i` of the table, every key appears once, and every stored
    /// rectangle is in coordinate range.  (Instance geometries are stored
    /// unclipped — the next frame clips them — so they need not lie within
    /// the last output rectangle.)
    pub closed spec fn wf(&self) -> bool {
        &&& keys_distinct(index_entries(&self.ids))
        &&& index_entries(&self.ids).len() == self.states@.len()
        &&& forall|i: int|
            0 <= i < index_entries(&self.ids).len() ==> (#[trigger] index_entries(&self.ids)[
                i
            ]).1 == i
        &&& forall|i: int, j: int|
            0 <= i < self.states@.len() && 0 <= j < self.states@[i].last_instances@.len()
                ==> (#[trigger] self.states@[i].last_instances@[j]).last_geometry.bounded(
                0x2000_0000,
            )
        &&& forall|i: int, j: int|
            0 <= i < self.old_damage@.len() && 0 <= j < self.old_damage@[i]@.len()
                ==> (#[trigger] self.old_damage@[i]@[j]).bounded(0x2000_0000)
    }

    /// The memory as a value.
    pub closed spec fn view(&self) -> StateView {
        StateView {
            size: self.size,
            elements: group_view(&self.ids, &self.states),
            old_damage: Seq::new(
                self.old_damage@.len(),
                |i: int| self.old_damage@[i]@,
            ),
        }
    }

    /// A fresh, empty memory: nothing remembered.
    fn empty() -> (r: RendererState)
        ensures
            r.wf(),
            r@ == empty_state_view(),
    {
        let r = RendererState {
            size: None,
            ids: index_map_new(),
            states: Vec::new(),
            old_damage: VecDeque::new(),
        };
        proof {
            assert(r@.elements =~= empty_state_view().elements);
            assert(r@.old_damage =~= empty_state_view().old_damage);
        }
        r
    }
}

/// The memory of a tracker that has not analysed a frame yet (or was reset).
pub open spec fn empty_state_view() -> StateView {
    StateView { size: None, elements: Seq::empty(), old_damage: Seq::empty() }
}

/// What an auto-mode tracker reads from its output every frame.
#[derive(Clone, Copy, Debug, PartialEq, Eq, Structural)]
pub struct OutputState {
    /// The active mode's size, or `None` while the output has no mode.
    pub current_mode: Option<Size>,
    /// Current fractional scale.
    pub scale: Scale,
    /// Current transform.
    pub transform: Transform,
}

/// The output has no active mode, so nothing can be resolved or rendered.
#[derive(Clone, Copy, Debug, PartialEq, Eq, Structural)]
pub struct OutputNoMode;

/// How the tracker learns the output's size, scale and transform.
#[derive(Clone, Copy, Debug, PartialEq, Eq, Structural)]
pub enum DamageTrackedRendererMode {
    /// Resolved from a mirrored output descriptor each frame; fails with
    /// [`OutputNoMode`] while the output has no mode.
    Auto(OutputState),
    /// Fixed at construction.
    Static {
        /// Size of the static output.
        size: Size,
        /// Scale of the static output.
        scale: Scale,
        /// Transform of the static output.
        transform: Transform,
    },
}

impl DamageTrackedRendererMode {
    /// The size, scale and transform this mode resolves to, when it does.
    pub open spec fn spec_resolve(self) -> Option<(Size, Scale, Transform)> {
        match self {
            DamageTrackedRendererMode::Auto(o) => match o.current_mode {
                Some(size) => Some((size, o.scale, o.transform)),
                None => None,
            },
            DamageTrackedRendererMode::Static { size, scale, transform } => Some(
                (size, scale, transform),
            ),
        }
    }

    /// Resolve the current size, scale and transform.
    pub fn resolve(&self) -> (r: Result<(Size, Scale, Transform), OutputNoMode>)
        ensures
            match r {
                Ok(t) => self.spec_resolve() == Some(t),
                Err(_) => self.spec_resolve() is None,
            },
    {
        match self {
            DamageTrackedRendererMode::Auto(o) => match o.current_mode {
                Some(size) => Ok((size, o.scale, o.transform)),
                None => Err(OutputNoMode),
            },
            DamageTrackedRendererMode::Static { size, scale, transform } => Ok(
                (*size, *scale, *transform),
            ),
        }
    }
}

/// Position of the entry with this id, or -1 when there is none.
pub open spec fn entry_pos(entries: Seq<EntryView>, id: u64) -> int
    decreases entries.len(),
{
    if entries.len() == 0 {
        -1
    } else if entries[0].id == id {
        0
    } else {
        let r = entry_pos(entries.skip(1), id);
        if r < 0 {
            -1
        } else {
            r + 1
        }
    }
}

/// The position returned by [`entry_pos`] holds the id, and a missing id
/// appears nowhere.
pub proof fn lemma_entry_pos(entries: Seq<EntryView>, id: u64)
    ensures
        entry_pos(entries, id) >= 0 ==> entry_pos(entries, id) < entries.len() && entries[
            entry_pos(entries, id)
        ].id == id,
        entry_pos(entries, id) < 0 ==> forall|i: int|
            0 <= i < entries.len() ==> (#[trigger] entries[i]).id != id,
    decreases entries.len(),
{
    if entries.len() > 0 && entries[0].id != id {
        lemma_entry_pos(entries.skip(1), id);
        if entry_pos(entries.skip(1), id) < 0 {
            assert forall|i: int| 0 <= i < entries.len() implies (#[trigger] entries[i]).id
                != id by {
                if i > 0 {
                    assert(entries.skip(1)[i - 1].id != id);
                }
            }
        }
    }
}

/// The commit remembered for this id, if any.
pub open spec fn prior_commit(entries: Seq<EntryView>, id: u64) -> Option<u64> {
    if entry_pos(entries, id) >= 0 {
        Some(entries[entry_pos(entries, id)].commit)
    } else {
        None
    }
}

/// The frame's elements as values, each with the damage it reports against
/// the commit remembered for its id.
pub open spec fn frame_infos<E: Element>(elems: Seq<E>, scale: Scale, prior: Seq<EntryView>)
    -> Seq<ElemInfo> {
    Seq::new(
        elems.len(),
        |i: int|
            ElemInfo {
                id: elems[i].spec_id(),
                commit: elems[i].spec_commit(),
                geometry: elems[i].spec_geometry(scale),
                opaque: elems[i].spec_opaque_regions(scale),
                damage: elems[i].spec_damage_since(
                    scale,
                    prior_commit(prior, elems[i].spec_id()),
                ),
            },
    )
}

/// One element that survived the visibility pass: its input position, its
/// snapshot, its geometry clipped to the output, and its opaque regions in
/// output space.  Its scene position (z) is its position in the scene list.
#[verifier::ext_equal]
pub ghost struct Placed {
    /// Position in the input element list.
    pub idx: int,
    /// The element's snapshot.
    pub info: ElemInfo,
    /// Geometry clipped to the output.
    pub clipped: Rect,
    /// Opaque regions, translated to output space and clipped.
    pub opaque_out: Seq<Rect>,
}

/// All opaque regions of a scene prefix, front to back.
pub open spec fn acc_opaques(placed: Seq<Placed>) -> Seq<Rect>
    decreases placed.len(),
{
    if placed.len() == 0 {
        Seq::empty()
    } else {
        acc_opaques(placed.drop_last()) + placed.last().opaque_out
    }
}

/// Every pixel of `clipped` lies under some of `opaques`.
pub open spec fn fully_occluded(clipped: Rect, opaques: Seq<Rect>) -> bool {
    forall|px: int, py: int| clipped.has_px(px, py) ==> covers(opaques, px, py)
}

/// Consider one element against the scene built so far: it is placed unless
/// it misses the output or is fully hidden behind the opaque regions of the
/// elements in front of it.
pub open spec fn scene_step(placed: Seq<Placed>, info: ElemInfo, idx: int, geo: Rect) -> Seq<
    Placed,
> {
    if !info.geometry.spec_overlaps(geo) {
        placed
    } else {
        let clipped = spec_intersection(info.geometry, geo);
        if fully_occluded(clipped, acc_opaques(placed)) {
            placed
        } else {
            placed.push(
                Placed {
                    idx,
                    info,
                    clipped,
                    opaque_out: spec_clip_translate(info.opaque, info.geometry.loc, geo),
                },
            )
        }
    }
}

/// The scene after considering the first `n` elements.
pub open spec fn scene_prefix(infos: Seq<ElemInfo>, geo: Rect, n: int) -> Seq<Placed>
    decreases n,
{
    if n <= 0 {
        Seq::empty()
    } else {
        scene_step(scene_prefix(infos, geo, n - 1), infos[n - 1], n - 1, geo)
    }
}

/// The visible elements of the frame, in scene order; position = z.
pub open spec fn scene(infos: Seq<ElemInfo>, geo: Rect) -> Seq<Placed> {
    scene_prefix(infos, geo, infos.len() as int)
}

/// Scene prefixes grow monotonically and stay consistent with the inputs.
pub proof fn lemma_scene_prefix_props(infos: Seq<ElemInfo>, geo: Rect, n: int)
    requires
        0 <= n <= infos.len(),
    ensures
        forall|k: int|
            0 <= k < scene_prefix(infos, geo, n).len() ==> {
                let p = #[trigger] scene_prefix(infos, geo, n)[k];
                &&& 0 <= p.idx < n
                &&& p.info == infos[p.idx]
                &&& p.clipped == spec_intersection(p.info.geometry, geo)
                &&& p.info.geometry.spec_overlaps(geo)
                &&& p.opaque_out == spec_clip_translate(p.info.opaque, p.info.geometry.loc, geo)
            },
        scene_prefix(infos, geo, n).len() <= n,
    decreases n,
{
    if n > 0 {
        lemma_scene_prefix_props(infos, geo, n - 1);
    }
}

/// The visible pixel count of a clipped geometry under the given opaque
/// regions.
pub open spec fn spec_visible_area(clipped: Rect, opaques: Seq<Rect>) -> int {
    spec_sum_areas(spec_subtract_all(seq![clipped], opaques))
}

/// What the frame reports about one element id.
pub ghost enum ReportEntry {
    /// Every instance missed the output or was fully occluded.
    Skipped,
    /// Some instance was (partly) visible; `area` is the total visible
    /// pixel count over all its instances.
    Rendered { area: int },
}

/// Fold one element into the report.
pub open spec fn report_step(
    m: Map<u64, ReportEntry>,
    placed: Seq<Placed>,
    info: ElemInfo,
    geo: Rect,
) -> Map<u64, ReportEntry> {
    if !info.geometry.spec_overlaps(geo) || fully_occluded(
        spec_intersection(info.geometry, geo),
        acc_opaques(placed),
    ) {
        if m.dom().contains(info.id) {
            m
        } else {
            m.insert(info.id, ReportEntry::Skipped)
        }
    } else {
        let a = spec_visible_area(spec_intersection(info.geometry, geo), acc_opaques(placed));
        if m.dom().contains(info.id) {
            match m[info.id] {
                ReportEntry::Skipped => m.insert(info.id, ReportEntry::Rendered { area: a }),
                ReportEntry::Rendered { area } => m.insert(
                    info.id,
                    ReportEntry::Rendered { area: area + a },
                ),
            }
        } else {
            m.insert(info.id, ReportEntry::Rendered { area: a })
        }
    }
}

/// The report after considering the first `n` elements.
pub open spec fn report_prefix(infos: Seq<ElemInfo>, geo: Rect, n: int) -> Map<u64, ReportEntry>
    decreases n,
{
    if n <= 0 {
        Map::empty()
    } else {
        report_step(
            report_prefix(infos, geo, n - 1),
            scene_prefix(infos, geo, n - 1),
            infos[n - 1],
            geo,
        )
    }
}

/// The whole frame's per-id visibility report.
pub open spec fn spec_report(infos: Seq<ElemInfo>, geo: Rect) -> Map<u64, ReportEntry> {
    report_prefix(infos, geo, infos.len() as int)
}

/// Once an id was reported rendered, later elements cannot demote it.
proof fn lemma_report_rendered_persists(infos: Seq<ElemInfo>, geo: Rect, id: u64, n1: int, n2: int)
    requires
        0 <= n1 <= n2 <= infos.len(),
        report_prefix(infos, geo, n1).dom().contains(id),
        report_prefix(infos, geo, n1)[id] is Rendered,
    ensures
        report_prefix(infos, geo, n2).dom().contains(id),
        report_prefix(infos, geo, n2)[id] is Rendered,
    decreases n2,
{
    if n2 > n1 {
        lemma_report_rendered_persists(infos, geo, id, n1, n2 - 1);
    }
}

/// Every element that overlaps the output and is not fully occluded by the
/// elements in front of it ends the frame reported as rendered.
pub proof fn lemma_visible_reported_rendered(infos: Seq<ElemInfo>, geo: Rect, i: int)
    requires
        0 <= i < infos.len(),
        infos[i].geometry.spec_overlaps(geo),
        !fully_occluded(
            spec_intersection(infos[i].geometry, geo),
            acc_opaques(scene_prefix(infos, geo, i)),
        ),
    ensures
        spec_report(infos, geo).dom().contains(infos[i].id),
        spec_report(infos, geo)[infos[i].id] is Rendered,
{
    let m1 = report_prefix(infos, geo, i + 1);
    assert(m1.dom().contains(infos[i].id) && m1[infos[i].id] is Rendered);
    lemma_report_rendered_persists(infos, geo, infos[i].id, i + 1, infos.len() as int);
}

/// `a` clamped into `usize`.
pub open spec fn clamp_usize(a: int) -> int {
    if a > usize::MAX {
        usize::MAX as int
    } else {
        a
    }
}

/// Damage reported by the placed elements themselves, in output space.
pub open spec fn a_damage(placed: Seq<Placed>, geo: Rect) -> Seq<Rect>
    decreases placed.len(),
{
    if placed.len() == 0 {
        Seq::empty()
    } else {
        a_damage(placed.drop_last(), geo) + spec_clip_translate(
            placed.last().info.damage,
            placed.last().info.geometry.loc,
            geo,
        )
    }
}

/// Some placed element carries this id.
pub open spec fn placed_has_id(placed: Seq<Placed>, id: u64) -> bool {
    exists|k: int| 0 <= k < placed.len() && (#[trigger] placed[k]).info.id == id
}

/// The geometries of an entry's instances.
pub open spec fn entry_geoms(e: EntryView) -> Seq<Rect> {
    Seq::new(e.instances.len(), |j: int| e.instances[j].0)
}

/// `placed.take(n)`, with `n` clamped into range.
pub open spec fn clamp_take(placed: Seq<Placed>, n: int) -> Seq<Placed> {
    if n >= placed.len() {
        placed
    } else if n < 0 {
        Seq::empty()
    } else {
        placed.take(n)
    }
}

/// What one vanished instance adds to the damage: its old geometry, minus
/// the opaque regions of the current elements in front of its old scene
/// position.
pub open spec fn gone_instance_damage(e: EntryView, placed: Seq<Placed>, j: int) -> Seq<Rect> {
    spec_subtract_all(
        seq![e.instances[j].0],
        acc_opaques(clamp_take(placed, e.instances[j].1)),
    )
}

/// Damage from the first `m` instances of one vanished entry.
pub open spec fn gone_damage_prefix(e: EntryView, placed: Seq<Placed>, m: int) -> Seq<Rect>
    decreases m,
{
    if m <= 0 {
        Seq::empty()
    } else {
        gone_damage_prefix(e, placed, m - 1) + gone_instance_damage(e, placed, m - 1)
    }
}

/// What one vanished entry adds to the damage: for each of its instances,
/// the old geometry minus what now sits in front of that instance.
pub open spec fn gone_damage_one(e: EntryView, placed: Seq<Placed>) -> Seq<Rect> {
    gone_damage_prefix(e, placed, e.instances.len() as int)
}

/// Damage from the first `n` prior entries whose id left the scene.
pub open spec fn gone_prefix(prior: Seq<EntryView>, placed: Seq<Placed>, n: int) -> Seq<Rect>
    decreases n,
{
    if n <= 0 {
        Seq::empty()
    } else {
        gone_prefix(prior, placed, n - 1) + (if placed_has_id(placed, prior[n - 1].id) {
            Seq::<Rect>::empty()
        } else {
            gone_damage_one(prior[n - 1], placed)
        })
    }
}

/// Whether the entry remembers an instance at exactly this place and scene
/// position.
pub open spec fn instances_match(instances: Seq<(Rect, int)>, geometry: Rect, z: int) -> bool {
    exists|i: int|
        0 <= i < instances.len() && (#[trigger] instances[i]).0 == geometry && instances[i].1 == z
}

/// What one placed element adds to the damage when it moved or changed
/// scene position: its new geometry and all its old ones, minus the opaque
/// regions of the elements now in front of it.
pub open spec fn moved_damage_one(k: int, placed: Seq<Placed>, prior: Seq<EntryView>) -> Seq<
    Rect,
> {
    let p = placed[k];
    let pos = entry_pos(prior, p.info.id);
    let matched = pos >= 0 && instances_match(prior[pos].instances, p.info.geometry, k);
    if matched {
        Seq::empty()
    } else {
        let base = seq![p.info.geometry] + (if pos >= 0 {
            entry_geoms(prior[pos])
        } else {
            Seq::<Rect>::empty()
        });
        spec_subtract_all(base, acc_opaques(placed.take(k)))
    }
}

/// Damage from the first `n` placed elements that moved or were reordered.
pub open spec fn moved_prefix(placed: Seq<Placed>, prior: Seq<EntryView>, n: int) -> Seq<Rect>
    decreases n,
{
    if n <= 0 {
        Seq::empty()
    } else {
        moved_prefix(placed, prior, n - 1) + moved_damage_one(n - 1, placed, prior)
    }
}

/// The first `n` stored damage lists, flattened, most recent first.
pub open spec fn flatten_prefix(dmg: Seq<Seq<Rect>>, n: int) -> Seq<Rect>
    decreases n,
{
    if n <= 0 {
        Seq::empty()
    } else {
        flatten_prefix(dmg, n - 1) + dmg[n - 1]
    }
}

/// The frame's own damage, before buffer-age reconciliation: the element,
/// disappearance and movement contributions — or the whole output when its
/// size changed or no frame was analysed before.
pub open spec fn frame_new_damage(sv: StateView, infos: Seq<ElemInfo>, geo: Rect) -> Seq<Rect> {
    let placed = scene(infos, geo);
    if sv.size != Some(geo.size) {
        seq![geo]
    } else {
        a_damage(placed, geo) + gone_prefix(sv.elements, placed, sv.elements.len() as int)
            + moved_prefix(placed, sv.elements, placed.len() as int)
    }
}

/// Whether the stored history suffices for this buffer age: a buffer of age
/// `k` holds the frame rendered `k` frames ago, so it needs the damage of
/// the `k - 1` frames since then.
pub open spec fn age_usable(sv: StateView, age: int) -> bool {
    age > 0 && sv.old_damage.len() >= age - 1
}

/// Everything the frame must repaint, before clipping and merging: the
/// frame's own damage plus the stored damage of the `age - 1` frames the
/// back buffer missed — or the whole output when the history is too short.
pub open spec fn frame_damage_pre(sv: StateView, infos: Seq<ElemInfo>, geo: Rect, age: int)
    -> Seq<Rect> {
    if age_usable(sv, age) {
        frame_new_damage(sv, infos, geo) + flatten_prefix(sv.old_damage, age - 1)
    } else {
        seq![geo]
    }
}

/// Fold one placed element into the remembered entries: a new id is
/// appended, a known id gains an instance.
pub open spec fn group_step(entries: Seq<EntryView>, p: Placed, k: int) -> Seq<EntryView> {
    let pos = entry_pos(entries, p.info.id);
    if pos < 0 {
        entries.push(
            EntryView { id: p.info.id, commit: p.info.commit, instances: seq![(p.info.geometry, k)] },
        )
    } else {
        entries.update(
            pos,
            EntryView {
                id: entries[pos].id,
                commit: entries[pos].commit,
                instances: entries[pos].instances.push((p.info.geometry, k)),
            },
        )
    }
}

/// The remembered entries built from the first `n` placed elements.
pub open spec fn group_prefix(placed: Seq<Placed>, n: int) -> Seq<EntryView>
    decreases n,
{
    if n <= 0 {
        Seq::empty()
    } else {
        group_step(group_prefix(placed, n - 1), placed[n - 1], n - 1)
    }
}

/// The tracker's memory after the frame: the output size, the scene's
/// elements grouped by id, and the frame's own damage pushed onto the
/// history (trimmed to what later frames of this age can use).
pub open spec fn next_state_view(sv: StateView, infos: Seq<ElemInfo>, geo: Rect, age: int)
    -> StateView {
    let placed = scene(infos, geo);
    let kept = if age_usable(sv, age) {
        sv.old_damage.take(age - 1)
    } else {
        sv.old_damage
    };
    StateView {
        size: Some(geo.size),
        elements: group_prefix(placed, placed.len() as int),
        old_damage: seq![frame_new_damage(sv, infos, geo)] + kept,
    }
}

/// A clipped geometry is fully occluded exactly when its visible pixel
/// count is zero.
pub proof fn lemma_occlusion_area(clipped: Rect, opaques: Seq<Rect>)
    requires
        clipped.valid(),
        !clipped.spec_is_empty(),
        all_bounded(opaques, 0x2000_0000),
    ensures
        spec_visible_area(clipped, opaques) >= 0,
        (spec_visible_area(clipped, opaques) == 0) <==> fully_occluded(clipped, opaques),
{
    let base = seq![clipped];
    crate::geometry::lemma_subtract_all_props(base, opaques);
    let pieces = spec_subtract_all(base, opaques);
    crate::geometry::lemma_sum_areas_sign(pieces);
    if pieces.len() == 0 {
        assert forall|px: int, py: int| clipped.has_px(px, py) implies covers(
            opaques,
            px,
            py,
        ) by {
            assert(base[0].has_px(px, py));
            assert(covers(base, px, py));
            if !covers(opaques, px, py) {
                assert(covers(pieces, px, py));
            }
        }
    } else {
        assert(all_nonempty(base));
        assert(all_nonempty(pieces));
        assert(spec_sum_areas(pieces) >= 1);
        assert(!pieces[0].spec_is_empty());
        crate::geometry::lemma_nonempty_px(pieces[0]);
        let px = pieces[0].loc.x as int;
        let py = pieces[0].loc.y as int;
        assert(covers(pieces, px, py));
        assert(covers(base, px, py) && !covers(opaques, px, py));
        assert(base[0].has_px(px, py));
        assert(!fully_occluded(clipped, opaques));
    }
}

/// When ids are unique, the entry holding an id is where [`entry_pos`]
/// points.
pub proof fn lemma_entry_pos_at(entries: Seq<EntryView>, id: u64, i: int)
    requires
        0 <= i < entries.len(),
        entries[i].id == id,
        forall|a: int, b: int|
            0 <= a < b < entries.len() ==> (#[trigger] entries[a]).id != (#[trigger] entries[
                b
            ]).id,
    ensures
        entry_pos(entries, id) == i,
    decreases entries.len(),
{
    if entries[0].id == id {
        if i != 0 {
            assert(entries[0].id != entries[i].id);
        }
    } else {
        let rest = entries.skip(1);
        assert(rest[i - 1].id == id);
        assert forall|a: int, b: int| 0 <= a < b < rest.len() implies (#[trigger] rest[a]).id != (
        #[trigger] rest[b]).id by {
            assert(entries[a + 1].id != entries[b + 1].id);
        }
        lemma_entry_pos_at(rest, id, i - 1);
    }
}

/// The first `n` per-element opaque region lists, flattened.
pub open spec fn flatten_vecs_prefix(s: Seq<Vec<Rect>>, n: int) -> Seq<Rect>
    decreases n,
{
    if n <= 0 {
        Seq::empty()
    } else {
        flatten_vecs_prefix(s, n - 1) + s[n - 1]@
    }
}

/// When the region lists mirror a scene's opaque regions entry for entry,
/// their flattened prefix is the scene prefix's accumulated opaque regions.
pub proof fn lemma_flatten_acc(s: Seq<Vec<Rect>>, placed: Seq<Placed>, n: int)
    requires
        0 <= n <= placed.len(),
        s.len() == placed.len(),
        forall|k: int| 0 <= k < placed.len() ==> (#[trigger] s[k])@ == placed[k].opaque_out,
    ensures
        flatten_vecs_prefix(s, n) == acc_opaques(placed.take(n)),
    decreases n,
{
    if n == 0 {
        assert(placed.take(0) =~= Seq::<Placed>::empty());
    } else {
        lemma_flatten_acc(s, placed, n - 1);
        assert(placed.take(n).drop_last() =~= placed.take(n - 1));
        assert(placed.take(n).last() == placed[n - 1]);
    }
}

/// A flattened prefix of bounded region lists is bounded.
pub proof fn lemma_flatten_bounded(s: Seq<Vec<Rect>>, n: int, b: int)
    requires
        0 <= n <= s.len(),
        forall|k: int| 0 <= k < s.len() ==> all_bounded((#[trigger] s[k])@, b),
    ensures
        all_bounded(flatten_vecs_prefix(s, n), b),
    decreases n,
{
    if n > 0 {
        lemma_flatten_bounded(s, n - 1, b);
        let f = flatten_vecs_prefix(s, n);
        let head = flatten_vecs_prefix(s, n - 1);
        assert forall|i: int| 0 <= i < f.len() implies (#[trigger] f[i]).bounded(b) by {
            if i < head.len() {
                assert(f[i] == head[i]);
            } else {
                assert(f[i] == s[n - 1]@[i - head.len()]);
            }
        }
    }
}

/// What a lookup in the id table says about the grouped entries: a hit names
/// the entry's position, a miss means the id is not remembered.
pub proof fn lemma_group_pos(
    ids: &indexmap::IndexMap<u64, usize>,
    states: &Vec<ElementState>,
    id: u64,
    r: Option<usize>,
)
    requires
        keys_distinct(index_entries(ids)),
        index_entries(ids).len() == states@.len(),
        forall|i: int|
            0 <= i < index_entries(ids).len() ==> (#[trigger] index_entries(ids)[i]).1 == i,
        match r {
            Some(v) => exists|i: int|
                0 <= i < index_entries(ids).len() && #[trigger] index_entries(ids)[i] == (id, v),
            None => forall|i: int|
                0 <= i < index_entries(ids).len() ==> (#[trigger] index_entries(ids)[i]).0 != id,
        },
    ensures
        match r {
            Some(v) => v < states@.len() && entry_pos(group_view(ids, states), id) == v
                && group_view(ids, states)[v as int].id == id && group_view(ids, states)[
                v as int
            ].commit == states@[v as int].last_commit,
            None => entry_pos(group_view(ids, states), id) < 0,
        },
{
    let g = group_view(ids, states);
    assert(g.len() == index_entries(ids).len());
    match r {
        Some(v) => {
            let i = choose|i: int|
                0 <= i < index_entries(ids).len() && #[trigger] index_entries(ids)[i] == (id, v);
            assert(index_entries(ids)[i].1 == i);
            assert(v == i);
            assert(g[v as int].id == id);
            assert forall|a: int, b: int| 0 <= a < b < g.len() implies (#[trigger] g[a]).id != (
            #[trigger] g[b]).id by {
                assert(index_entries(ids)[a].0 != index_entries(ids)[b].0);
            }
            lemma_entry_pos_at(g, id, v as int);
        },
        None => {
            lemma_entry_pos(g, id);
            if entry_pos(g, id) >= 0 {
                let p = entry_pos(g, id);
                assert(index_entries(ids)[p].0 == id);
            }
        },
    }
}

/// Recording a skip keeps the executable report aligned with the model.
pub proof fn lemma_report_skip(
    m: Map<u64, RenderElementState>,
    model: Map<u64, ReportEntry>,
    id: u64,
)
    requires
        report_matches(m, model),
    ensures
        report_matches(
            if m.dom().contains(id) {
                m
            } else {
                m.insert(id, RenderElementState::Skipped)
            },
            if model.dom().contains(id) {
                model
            } else {
                model.insert(id, ReportEntry::Skipped)
            },
        ),
{
}

/// Recording a visible instance keeps the executable report aligned with
/// the model: the stored area is the model's, clamped into `usize`.
pub proof fn lemma_report_rendered(
    m: Map<u64, RenderElementState>,
    model: Map<u64, ReportEntry>,
    id: u64,
    area: usize,
    a_model: int,
)
    requires
        report_matches(m, model),
        area as int == clamp_usize(a_model),
        a_model >= 0,
    ensures
        report_matches(
            match (m.dom().contains(id), m.index(id)) {
                (true, RenderElementState::Rendered { visible_area }) => m.insert(
                    id,
                    RenderElementState::Rendered {
                        visible_area: if visible_area as int + area as int <= usize::MAX {
                            (visible_area + area) as usize
                        } else {
                            usize::MAX
                        },
                    },
                ),
                _ => m.insert(id, RenderElementState::Rendered { visible_area: area }),
            },
            if model.dom().contains(id) {
                match model[id] {
                    ReportEntry::Skipped => model.insert(id, ReportEntry::Rendered { area: a_model }),
                    ReportEntry::Rendered { area: old_a } => model.insert(
                        id,
                        ReportEntry::Rendered { area: old_a + a_model },
                    ),
                }
            } else {
                model.insert(id, ReportEntry::Rendered { area: a_model })
            },
        ),
{
}

/// Flatten the first `n` per-element opaque region lists into one list.
fn flatten_front(regions: &Vec<Vec<Rect>>, n: usize) -> (r: Vec<Rect>)
    requires
        n <= regions@.len(),
    ensures
        r@ == flatten_vecs_prefix(regions@, n as int),
{
    let mut out: Vec<Rect> = Vec::new();
    for k in 0..n
        invariant
            n <= regions@.len(),
            out@ == flatten_vecs_prefix(regions@, k as int),
    {
        let mut part = crate::geometry::copy_rects(&regions[k]);
        out.append(&mut part);
    }
    out
}

/// Copy a list of instances.
fn copy_instances(v: &Vec<ElementInstanceState>) -> (r: Vec<ElementInstanceState>)
    ensures
        r@ == v@,
{
    let mut out: Vec<ElementInstanceState> = Vec::new();
    let n = v.len();
    for k in 0..n
        invariant
            n == v@.len(),
            out@ == v@.take(k as int),
    {
        out.push(v[k]);
        proof {
            assert(v@.take(k as int + 1).drop_last() =~= v@.take(k as int));
            assert(v@.take(k as int + 1).last() == v@[k as int]);
        }
    }
    proof {
        assert(v@.take(v@.len() as int) =~= v@);
    }
    out
}

/// Replace one element of a list.
fn replace_state(v: &mut Vec<ElementState>, i: usize, st: ElementState)
    requires
        i < old(v)@.len(),
    ensures
        final(v)@ == old(v)@.update(i as int, st),
{
    let _ = v.remove(i);
    v.insert(i, st);
    proof {
        assert(final(v)@ =~= old(v)@.update(i as int, st));
    }
}

/// The geometries of an element state's instances.
fn geoms_of(st: &ElementState) -> (r: Vec<Rect>)
    ensures
        r@ == Seq::new(
            st.last_instances@.len(),
            |j: int| st.last_instances@[j].last_geometry,
        ),
{
    let mut out: Vec<Rect> = Vec::new();
    let n = st.last_instances.len();
    for k in 0..n
        invariant
            n == st.last_instances@.len(),
            out@.len() == k,
            forall|j: int| 0 <= j < k ==> out@[j] == st.last_instances@[j].last_geometry,
    {
        out.push(st.last_instances[k].last_geometry);
    }
    proof {
        assert(out@ =~= Seq::new(
            st.last_instances@.len(),
            |j: int| st.last_instances@[j].last_geometry,
        ));
    }
    out
}

/// Clamp a length into `[0, COORD_LIMIT]`.
pub open spec fn spec_clamp_len(v: i32) -> i32 {
    if v < 0 {
        0
    } else if v > 0x2000_0000 {
        0x2000_0000
    } else {
        v
    }
}

/// The output rectangle a resolved mode spans: the transformed size at the
/// origin, clamped into coordinate range.
pub open spec fn output_geo_of(size: Size, transform: Transform) -> Rect {
    let t = transform.spec_transform_size(size);
    Rect {
        loc: Point { x: 0, y: 0 },
        size: Size { w: spec_clamp_len(t.w), h: spec_clamp_len(t.h) },
    }
}

/// Compute the output rectangle of a resolved mode.
fn output_geo(size: Size, transform: Transform) -> (r: Rect)
    ensures
        r == output_geo_of(size, transform),
        r.valid(),
{
    let t = transform.transform_size(size);
    let w = if t.w < 0 {
        0
    } else if t.w > 0x2000_0000 {
        0x2000_0000
    } else {
        t.w
    };
    let h = if t.h < 0 {
        0
    } else if t.h > 0x2000_0000 {
        0x2000_0000
    } else {
        t.h
    };
    Rect { loc: Point { x: 0, y: 0 }, size: Size { w, h } }
}

/// Completeness of a frame's damage, source by source: every pixel dirtied
/// by an element's own damage report, by a vanished element, by a moved
/// element, or by the stored damage the back buffer missed, lies in the
/// frame's damage; and whenever the output's size changed or its history
/// fell short, the whole output does.
pub proof fn lemma_frame_damage_complete(
    sv: StateView,
    infos: Seq<ElemInfo>,
    geo: Rect,
    age: int,
    px: int,
    py: int,
)
    ensures
        ({
            let placed = scene(infos, geo);
            let pre = frame_damage_pre(sv, infos, geo, age);
            &&& (age_usable(sv, age) && sv.size == Some(geo.size)) ==> ((covers(
                a_damage(placed, geo),
                px,
                py,
            ) || covers(gone_prefix(sv.elements, placed, sv.elements.len() as int), px, py)
                || covers(moved_prefix(placed, sv.elements, placed.len() as int), px, py)
                || covers(flatten_prefix(sv.old_damage, age - 1), px, py)) ==> covers(
                pre,
                px,
                py,
            ))
            &&& (!age_usable(sv, age) || sv.size != Some(geo.size)) ==> (geo.has_px(px, py)
                ==> covers(pre, px, py))
        }),
{
    let placed = scene(infos, geo);
    let new = frame_new_damage(sv, infos, geo);
    let a = a_damage(placed, geo);
    let g = gone_prefix(sv.elements, placed, sv.elements.len() as int);
    let m = moved_prefix(placed, sv.elements, placed.len() as int);
    if age_usable(sv, age) {
        let hist = flatten_prefix(sv.old_damage, age - 1);
        crate::geometry::lemma_covers_concat_px(new, hist, px, py);
        if sv.size == Some(geo.size) {
            crate::geometry::lemma_covers_concat_px(a + g, m, px, py);
            crate::geometry::lemma_covers_concat_px(a, g, px, py);
            assert(new == (a + g) + m);
        } else {
            assert(new == seq![geo]);
            if geo.has_px(px, py) {
                assert(new[0].has_px(px, py));
                assert(covers(new, px, py));
            }
        }
    } else {
        let pre = frame_damage_pre(sv, infos, geo, age);
        assert(pre == seq![geo]);
        if geo.has_px(px, py) {
            assert(pre[0].has_px(px, py));
        }
    }
}

/// Full redraw on reset: the first frame after construction, or after a
/// backend error wiped the memory, must repaint exactly the whole output.
pub proof fn lemma_full_redraw_on_reset(infos: Seq<ElemInfo>, geo: Rect, age: int, px: int, py: int)
    ensures
        covers(frame_damage_pre(empty_state_view(), infos, geo, age), px, py) <==> geo.has_px(
            px,
            py,
        ),
{
    let sv = empty_state_view();
    let pre = frame_damage_pre(sv, infos, geo, age);
    assert(frame_new_damage(sv, infos, geo) == seq![geo]);
    if age_usable(sv, age) {
        assert(age == 1);
        assert(flatten_prefix(sv.old_damage, 0) == Seq::<Rect>::empty());
        crate::geometry::lemma_covers_concat_px(seq![geo], Seq::empty(), px, py);
        assert(covers(seq![geo], px, py) <==> geo.has_px(px, py)) by {
            if geo.has_px(px, py) {
                assert(seq![geo][0].has_px(px, py));
            }
        }
    } else {
        assert(pre == seq![geo]);
        if geo.has_px(px, py) {
            assert(pre[0].has_px(px, py));
        }
    }
}

/// The grouped entries carry pairwise distinct ids.
pub proof fn lemma_group_distinct(placed: Seq<Placed>, n: int)
    requires
        0 <= n <= placed.len(),
    ensures
        forall|a: int, b: int|
            0 <= a < b < group_prefix(placed, n).len() ==> (#[trigger] group_prefix(placed, n)[
                a
            ]).id != (#[trigger] group_prefix(placed, n)[b]).id,
    decreases n,
{
    if n > 0 {
        lemma_group_distinct(placed, n - 1);
        let g = group_prefix(placed, n - 1);
        let id = placed[n - 1].info.id;
        lemma_entry_pos(g, id);
    }
}

/// Every grouped entry's id belongs to some placed element.
pub proof fn lemma_group_ids(placed: Seq<Placed>, n: int)
    requires
        0 <= n <= placed.len(),
    ensures
        forall|t: int|
            0 <= t < group_prefix(placed, n).len() ==> placed_has_id(
                placed,
                (#[trigger] group_prefix(placed, n)[t]).id,
            ),
    decreases n,
{
    if n > 0 {
        lemma_group_ids(placed, n - 1);
        let g = group_prefix(placed, n - 1);
        let gn = group_prefix(placed, n);
        let id = placed[n - 1].info.id;
        lemma_entry_pos(g, id);
        assert(placed_has_id(placed, id));
        assert forall|t: int| 0 <= t < gn.len() implies placed_has_id(
            placed,
            (#[trigger] gn[t]).id,
        ) by {
            let pos = entry_pos(g, id);
            if pos < 0 {
                if t < g.len() {
                    assert(gn[t] == g[t]);
                } else {
                    assert(gn[t].id == id);
                }
            } else {
                if t == pos {
                    assert(gn[t].id == g[t].id);
                } else {
                    assert(gn[t] == g[t]);
                }
            }
        }
    }
}

/// Every placed element's geometry and scene position are remembered under
/// its id in the grouped entries.
pub proof fn lemma_group_instance(placed: Seq<Placed>, n: int, k: int)
    requires
        0 <= k < n <= placed.len(),
    ensures
        ({
            let g = group_prefix(placed, n);
            let pos = entry_pos(g, placed[k].info.id);
            &&& 0 <= pos < g.len()
            &&& g[pos].id == placed[k].info.id
            &&& instances_match(g[pos].instances, placed[k].info.geometry, k)
        }),
    decreases n,
{
    let g = group_prefix(placed, n - 1);
    let gn = group_prefix(placed, n);
    let id_n = placed[n - 1].info.id;
    let pos_n = entry_pos(g, id_n);
    lemma_group_distinct(placed, n - 1);
    lemma_group_distinct(placed, n);
    lemma_entry_pos(g, id_n);
    if k == n - 1 {
        if pos_n < 0 {
            assert(gn == g.push(
                EntryView {
                    id: id_n,
                    commit: placed[n - 1].info.commit,
                    instances: seq![(placed[n - 1].info.geometry, n - 1)],
                },
            ));
            assert(gn[g.len() as int].id == id_n);
            lemma_entry_pos_at(gn, id_n, g.len() as int);
            assert(gn[g.len() as int].instances[0] == (placed[n - 1].info.geometry, n - 1));
        } else {
            assert(gn[pos_n].id == id_n);
            lemma_entry_pos_at(gn, id_n, pos_n);
            let insts = gn[pos_n].instances;
            assert(insts[insts.len() - 1] == (placed[n - 1].info.geometry, n - 1));
        }
    } else {
        lemma_group_instance(placed, n - 1, k);
        let id_k = placed[k].info.id;
        let pos_k = entry_pos(g, id_k);
        if pos_n < 0 {
            assert(gn[pos_k] == g[pos_k]);
            lemma_entry_pos_at(gn, id_k, pos_k);
        } else {
            if pos_k == pos_n {
                assert(gn[pos_k].id == g[pos_k].id);
                lemma_entry_pos_at(gn, id_k, pos_k);
                let old_insts = g[pos_k].instances;
                let new_insts = gn[pos_k].instances;
                let j = choose|j: int|
                    0 <= j < old_insts.len() && (#[trigger] old_insts[j]).0 == placed[
                        k
                    ].info.geometry && old_insts[j].1 == k;
                assert(new_insts[j] == old_insts[j]);
            } else {
                assert(gn[pos_k] == g[pos_k]);
                lemma_entry_pos_at(gn, id_k, pos_k);
            }
        }
    }
}

/// Two frames whose elements agree in everything but their damage reports.
pub open spec fn similar_infos(a: Seq<ElemInfo>, b: Seq<ElemInfo>) -> bool {
    &&& a.len() == b.len()
    &&& forall|i: int|
        0 <= i < a.len() ==> ((#[trigger] a[i]).id == (#[trigger] b[i]).id && a[i].commit
            == b[i].commit && a[i].geometry == b[i].geometry && a[i].opaque == b[i].opaque)
}

/// The corresponding placed elements of two similar frames.
pub open spec fn similar_placed(pa: Seq<Placed>, pb: Seq<Placed>) -> bool {
    &&& pa.len() == pb.len()
    &&& forall|k: int|
        0 <= k < pa.len() ==> ((#[trigger] pa[k]).idx == (#[trigger] pb[k]).idx && pa[k].clipped
            == pb[k].clipped && pa[k].opaque_out == pb[k].opaque_out && pa[k].info.id
            == pb[k].info.id && pa[k].info.commit == pb[k].info.commit && pa[k].info.geometry
            == pb[k].info.geometry)
}

/// Similar placed prefixes accumulate the same opaque regions.
proof fn lemma_acc_opaques_similar(pa: Seq<Placed>, pb: Seq<Placed>)
    requires
        similar_placed(pa, pb),
    ensures
        acc_opaques(pa) == acc_opaques(pb),
    decreases pa.len(),
{
    if pa.len() > 0 {
        assert(similar_placed(pa.drop_last(), pb.drop_last()));
        lemma_acc_opaques_similar(pa.drop_last(), pb.drop_last());
        assert(pa.last().opaque_out == pb.last().opaque_out);
    }
}

/// Which elements a frame places does not depend on their damage reports.
proof fn lemma_scene_similar(a: Seq<ElemInfo>, b: Seq<ElemInfo>, geo: Rect, n: int)
    requires
        similar_infos(a, b),
        0 <= n <= a.len(),
    ensures
        similar_placed(scene_prefix(a, geo, n), scene_prefix(b, geo, n)),
    decreases n,
{
    if n > 0 {
        lemma_scene_similar(a, b, geo, n - 1);
        let pa = scene_prefix(a, geo, n - 1);
        let pb = scene_prefix(b, geo, n - 1);
        lemma_acc_opaques_similar(pa, pb);
        assert(a[n - 1].geometry == b[n - 1].geometry);
        assert(a[n - 1].opaque == b[n - 1].opaque);
    }
}

/// Similar placed prefixes group to the same remembered entries: grouping
/// reads only ids, commits and geometries.
proof fn lemma_group_similar(pa: Seq<Placed>, pb: Seq<Placed>, n: int)
    requires
        similar_placed(pa, pb),
        0 <= n <= pa.len(),
    ensures
        group_prefix(pa, n) == group_prefix(pb, n),
    decreases n,
{
    if n > 0 {
        lemma_group_similar(pa, pb, n - 1);
        assert(pa[n - 1].info.id == pb[n - 1].info.id);
        assert(pa[n - 1].info.commit == pb[n - 1].info.commit);
        assert(pa[n - 1].info.geometry == pb[n - 1].info.geometry);
    }
}

/// A frame's remembered entries do not depend on the damage its elements
/// reported: two frames that agree on ids, commits, geometries and opaque
/// regions leave the same memory.  (So a repeated frame finds the memory in
/// exactly the shape the previous call left, although the damage baked into
/// the two frames' snapshots differs.)
pub proof fn lemma_group_ignores_damage(a: Seq<ElemInfo>, b: Seq<ElemInfo>, geo: Rect)
    requires
        similar_infos(a, b),
    ensures
        scene(a, geo).len() == scene(b, geo).len(),
        group_prefix(scene(a, geo), scene(a, geo).len() as int) == group_prefix(
            scene(b, geo),
            scene(b, geo).len() as int,
        ),
{
    lemma_scene_similar(a, b, geo, a.len() as int);
    lemma_group_similar(scene(a, geo), scene(b, geo), scene(a, geo).len() as int);
}

/// The tracker's memory has absorbed this frame: the output size matches,
/// the remembered elements are exactly the scene's, and no element reports
/// damage (its commit is the remembered one).
pub open spec fn absorbed(sv: StateView, infos: Seq<ElemInfo>, geo: Rect) -> bool {
    &&& sv.size == Some(geo.size)
    &&& sv.elements == group_prefix(scene(infos, geo), scene(infos, geo).len() as int)
    &&& forall|i: int| 0 <= i < infos.len() ==> (#[trigger] infos[i]).damage.len() == 0
}

/// Placed elements that report no damage contribute none.
proof fn lemma_a_damage_empty(placed: Seq<Placed>, geo: Rect, px: int, py: int)
    requires
        forall|k: int| 0 <= k < placed.len() ==> (#[trigger] placed[k]).info.damage.len() == 0,
    ensures
        !covers(a_damage(placed, geo), px, py),
    decreases placed.len(),
{
    if placed.len() > 0 {
        lemma_a_damage_empty(placed.drop_last(), geo, px, py);
        assert(placed.last().info.damage.len() == 0);
        assert(spec_clip_translate(placed.last().info.damage, placed.last().info.geometry.loc, geo)
            == Seq::<Rect>::empty());
        crate::geometry::lemma_covers_concat_px(
            a_damage(placed.drop_last(), geo),
            Seq::<Rect>::empty(),
            px,
            py,
        );
    }
}

/// Prior entries whose ids are all still placed contribute no damage.
proof fn lemma_gone_empty(prior: Seq<EntryView>, placed: Seq<Placed>, n: int, px: int, py: int)
    requires
        0 <= n <= prior.len(),
        forall|t: int| 0 <= t < prior.len() ==> placed_has_id(placed, (#[trigger] prior[t]).id),
    ensures
        !covers(gone_prefix(prior, placed, n), px, py),
    decreases n,
{
    if n > 0 {
        lemma_gone_empty(prior, placed, n - 1, px, py);
        assert(placed_has_id(placed, prior[n - 1].id));
        crate::geometry::lemma_covers_concat_px(gone_prefix(prior, placed, n - 1), Seq::<Rect>::empty(), px, py);
    }
}

/// Placed elements whose place and position are all remembered contribute
/// no movement damage.
proof fn lemma_moved_empty(placed: Seq<Placed>, prior: Seq<EntryView>, n: int, px: int, py: int)
    requires
        0 <= n <= placed.len(),
        forall|k: int|
            0 <= k < placed.len() ==> {
                let pos = entry_pos(prior, (#[trigger] placed[k]).info.id);
                &&& 0 <= pos < prior.len()
                &&& instances_match(prior[pos].instances, placed[k].info.geometry, k)
            },
    ensures
        !covers(moved_prefix(placed, prior, n), px, py),
    decreases n,
{
    if n > 0 {
        lemma_moved_empty(placed, prior, n - 1, px, py);
        assert(moved_damage_one(n - 1, placed, prior) == Seq::<Rect>::empty());
        crate::geometry::lemma_covers_concat_px(moved_prefix(placed, prior, n - 1), Seq::<Rect>::empty(), px, py);
    }
}

/// Idempotence: a frame whose scene the memory has already absorbed, drawn
/// into a buffer that already holds the previous frame, needs no repaint at
/// all.  (A second identical call right after a first one is in this
/// position: the first call leaves the memory exactly in this shape, and an
/// element whose commit is the remembered one reports no damage.)
pub proof fn lemma_absorbed_idle(sv: StateView, infos: Seq<ElemInfo>, geo: Rect, px: int, py: int)
    requires
        absorbed(sv, infos, geo),
    ensures
        !covers(frame_damage_pre(sv, infos, geo, 1), px, py),
{
    let placed = scene(infos, geo);
    let n = placed.len() as int;
    lemma_scene_prefix_props(infos, geo, infos.len() as int);
    assert(age_usable(sv, 1));
    assert(frame_damage_pre(sv, infos, geo, 1) == frame_new_damage(sv, infos, geo)
        + flatten_prefix(sv.old_damage, 0));
    crate::geometry::lemma_covers_concat_px(frame_new_damage(sv, infos, geo), flatten_prefix(sv.old_damage, 0), px, py);
    let a = a_damage(placed, geo);
    let g = gone_prefix(sv.elements, placed, sv.elements.len() as int);
    let m = moved_prefix(placed, sv.elements, n);
    assert(frame_new_damage(sv, infos, geo) == (a + g) + m);
    crate::geometry::lemma_covers_concat_px(a + g, m, px, py);
    crate::geometry::lemma_covers_concat_px(a, g, px, py);
    assert forall|k: int| 0 <= k < placed.len() implies (#[trigger] placed[k]).info.damage.len()
        == 0 by {
        assert(placed[k].info == infos[placed[k].idx]);
    }
    lemma_a_damage_empty(placed, geo, px, py);
    lemma_group_ids(placed, n);
    lemma_gone_empty(sv.elements, placed, sv.elements.len() as int, px, py);
    assert forall|k: int| 0 <= k < placed.len() implies {
        let pos = entry_pos(sv.elements, (#[trigger] placed[k]).info.id);
        &&& 0 <= pos < sv.elements.len()
        &&& instances_match(sv.elements[pos].instances, placed[k].info.geometry, k)
    } by {
        lemma_group_instance(placed, n, k);
    }
    lemma_moved_empty(placed, sv.elements, n, px, py);
}

/// What a frame reported about one element id.
#[derive(Clone, Copy, Debug, PartialEq, Eq, Structural)]
pub enum RenderElementState {
    /// Every instance missed the output or was fully occluded.
    Skipped,
    /// Some instance was (partly) visible.
    Rendered {
        /// Total visible pixel count over the id's instances, saturated.
        visible_area: usize,
    },
}

/// The per-id visibility report of one frame.
pub struct RenderElementStates {
    /// One state per element id that was considered.
    pub states: std::collections::HashMap<u64, RenderElementState>,
}

impl RenderElementStates {
    /// Look up the state recorded for an id.
    pub fn get(&self, id: u64) -> (r: Option<RenderElementState>)
        ensures
            self.states@.dom().contains(id) ==> r == Some(self.states@[id]),
            !self.states@.dom().contains(id) ==> r is None,
    {
        match self.states.get(&id) {
            Some(s) => Some(*s),
            None => None,
        }
    }
}

/// The executable report holds the model's entries, with each visible area
/// clamped into `usize`.
pub open spec fn report_matches(m: Map<u64, RenderElementState>, model: Map<u64, ReportEntry>)
    -> bool {
    &&& forall|id: u64| m.dom().contains(id) <==> model.dom().contains(id)
    &&& forall|id: u64|
        #[trigger] model.dom().contains(id) ==> match (m[id], model[id]) {
            (RenderElementState::Skipped, ReportEntry::Skipped) => true,
            (
                RenderElementState::Rendered { visible_area },
                ReportEntry::Rendered { area },
            ) => visible_area as int == clamp_usize(area) && area >= 0,
            _ => false,
        }
}

/// Record an id as skipped, unless it already has a state.
fn record_skipped(m: &mut std::collections::HashMap<u64, RenderElementState>, id: u64)
    ensures
        final(m)@ == if old(m)@.dom().contains(id) {
            old(m)@
        } else {
            old(m)@.insert(id, RenderElementState::Skipped)
        },
{
    if !m.contains_key(&id) {
        m.insert(id, RenderElementState::Skipped);
    }
}

/// Record a visible instance of an id: a later visible instance adds to the
/// id's visible area, and supersedes an earlier skip.
fn record_rendered(m: &mut std::collections::HashMap<u64, RenderElementState>, id: u64, area: usize)
    ensures
        final(m)@ == match (old(m)@.dom().contains(id), old(m)@.index(id)) {
            (true, RenderElementState::Rendered { visible_area }) => old(m)@.insert(
                id,
                RenderElementState::Rendered {
                    visible_area: if visible_area as int + area <= usize::MAX {
                        (visible_area + area) as usize
                    } else {
                        usize::MAX
                    },
                },
            ),
            _ => old(m)@.insert(id, RenderElementState::Rendered { visible_area: area }),
        },
{
    let prev = match m.get(&id) {
        Some(s) => Some(*s),
        None => None,
    };
    match prev {
        Some(RenderElementState::Rendered { visible_area }) => {
            let total = if visible_area > usize::MAX - area {
                usize::MAX
            } else {
                visible_area + area
            };
            m.insert(id, RenderElementState::Rendered { visible_area: total });
        },
        _ => {
            m.insert(id, RenderElementState::Rendered { visible_area: area });
        },
    }
}

/// What [`DamageTrackedRenderer::render_output`] can fail with.
#[derive(Debug)]
pub enum DamageTrackedRendererError<E> {
    /// The backend failed; the tracker's memory has been wiped.
    Rendering(E),
    /// The output has no active mode.
    OutputNoMode(OutputNoMode),
}

/// The rectangles handed to the backend's clear: the damage minus every
/// opaque region of every element drawn this frame, so no cleared pixel
/// lies under any of them.
pub fn compute_clear_damage(damage: &Vec<Rect>, opaques: &Vec<Rect>) -> (r: Vec<Rect>)
    requires
        all_bounded(damage@, 0x2000_0000),
        all_bounded(opaques@, 0x2000_0000),
    ensures
        r@ == spec_subtract_all(damage@, opaques@),
        forall|px: int, py: int|
            covers(r@, px, py) <==> (covers(damage@, px, py) && !covers(opaques@, px, py)),
        pairwise_disjoint(damage@) ==> pairwise_disjoint(r@),
{
    let base = crate::geometry::copy_rects(damage);
    let r = crate::geometry::subtract_rects(base, opaques);
    proof {
        crate::geometry::lemma_subtract_all_props(damage@, opaques@);
    }
    r
}

/// Translate every rectangle, without clipping.
fn translate_all(v: &Vec<Rect>, delta: Point) -> (r: Vec<Rect>)
    requires
        all_bounded(v@, 0x2000_0000),
        -0x2000_0000 <= delta.x <= 0x2000_0000,
        -0x2000_0000 <= delta.y <= 0x2000_0000,
    ensures
        r@.len() == v@.len(),
        forall|i: int|
            0 <= i < v@.len() ==> (#[trigger] r@[i]) == crate::geometry::spec_translate(
                v@[i],
                delta,
            ),
        forall|px: int, py: int|
            covers(r@, px, py) <==> covers(v@, px - delta.x, py - delta.y),
{
    let mut out: Vec<Rect> = Vec::new();
    let n = v.len();
    for k in 0..n
        invariant
            n == v@.len(),
            all_bounded(v@, 0x2000_0000),
            -0x2000_0000 <= delta.x <= 0x2000_0000,
            -0x2000_0000 <= delta.y <= 0x2000_0000,
            out@.len() == k,
            forall|i: int|
                0 <= i < k ==> (#[trigger] out@[i]) == crate::geometry::spec_translate(
                    v@[i],
                    delta,
                ),
    {
        let t = v[k].translate(delta);
        proof {
            assert(t == crate::geometry::spec_translate(v@[k as int], delta));
        }
        out.push(t);
    }
    proof {
        assert forall|px: int, py: int|
            covers(out@, px, py) <==> covers(v@, px - delta.x, py - delta.y) by {
            if covers(out@, px, py) {
                let i = choose|i: int| 0 <= i < out@.len() && (#[trigger] out@[i]).has_px(px, py);
                assert(v@[i].has_px(px - delta.x, py - delta.y));
            }
            if covers(v@, px - delta.x, py - delta.y) {
                let i = choose|i: int|
                    0 <= i < v@.len() && (#[trigger] v@[i]).has_px(px - delta.x, py - delta.y);
                assert(out@[i].has_px(px, py));
            }
        }
    }
    out
}

/// The rectangles handed to one element's draw, in element-local
/// coordinates: the damage clipped to the element's geometry, minus the
/// opaque regions of every element in front of it.
pub fn compute_element_damage(damage: &Vec<Rect>, geometry: Rect, front: &Vec<Rect>) -> (r: Vec<
    Rect,
>)
    requires
        all_bounded(damage@, 0x2000_0000),
        geometry.bounded(0x2000_0000),
        all_bounded(front@, 0x2000_0000),
    ensures
        forall|px: int, py: int|
            covers(r@, px, py) <==> (covers(damage@, px + geometry.loc.x, py + geometry.loc.y)
                && geometry.has_px(px + geometry.loc.x, py + geometry.loc.y) && !covers(
                front@,
                px + geometry.loc.x,
                py + geometry.loc.y,
            )),
{
    let zero = Point { x: 0, y: 0 };
    let clipped = crate::geometry::clip_translate(damage, zero, geometry);
    proof {
        crate::geometry::lemma_clip_translate_props(damage@, zero, geometry);
    }
    let inner = crate::geometry::subtract_rects(clipped, front);
    proof {
        crate::geometry::lemma_subtract_all_props(
            spec_clip_translate(damage@, zero, geometry),
            front@,
        );
    }
    let neg = Point { x: 0 - geometry.loc.x, y: 0 - geometry.loc.y };
    let r = translate_all(&inner, neg);
    proof {
        assert forall|px: int, py: int|
            covers(r@, px, py) <==> (covers(damage@, px + geometry.loc.x, py + geometry.loc.y)
                && geometry.has_px(px + geometry.loc.x, py + geometry.loc.y) && !covers(
                front@,
                px + geometry.loc.x,
                py + geometry.loc.y,
            )) by {
            let qx = px + geometry.loc.x;
            let qy = py + geometry.loc.y;
            crate::geometry::lemma_clip_translate_cover(damage@, zero, geometry, qx, qy);
            assert(covers(r@, px, py) <==> covers(inner@, px - neg.x, py - neg.y));
            assert(px - neg.x == qx && py - neg.y == qy);
        }
    }
    r
}

/// Damage tracker for a single output.
pub struct DamageTrackedRenderer {
    mode: DamageTrackedRendererMode,
    last_state: RendererState,
}

impl DamageTrackedRenderer {
    /// The tracker's memory, as a value.
    pub closed spec fn state_view(&self) -> StateView {
        self.last_state@
    }

    /// The tracker's memory is well formed.
    pub closed spec fn inv(&self) -> bool {
        self.last_state.wf()
    }

    /// The tracker's mode, as a value.
    pub closed spec fn spec_mode(&self) -> DamageTrackedRendererMode {
        self.mode
    }

    /// Build a tracker for a static output.
    pub fn new(size: Size, scale: Scale, transform: Transform) -> (r: DamageTrackedRenderer)
        ensures
            r.inv(),
            r.state_view() == empty_state_view(),
            r.spec_mode() == (DamageTrackedRendererMode::Static { size, scale, transform }),
    {
        DamageTrackedRenderer {
            mode: DamageTrackedRendererMode::Static { size, scale, transform },
            last_state: RendererState::empty(),
        }
    }

    /// Build a tracker that follows an output descriptor.  Mirror later
    /// changes of the output into the tracker with
    /// [`update_output`](Self::update_output).
    pub fn from_output(output: &OutputState) -> (r: DamageTrackedRenderer)
        ensures
            r.inv(),
            r.state_view() == empty_state_view(),
            r.spec_mode() == DamageTrackedRendererMode::Auto(*output),
    {
        DamageTrackedRenderer {
            mode: DamageTrackedRendererMode::Auto(*output),
            last_state: RendererState::empty(),
        }
    }

    /// The tracker's mode.
    pub fn mode(&self) -> (r: &DamageTrackedRendererMode)
        ensures
            *r == self.spec_mode(),
    {
        &self.mode
    }

    /// Analyse one frame: compute its damage, update the tracker's memory,
    /// and report each element's visibility.  Also hands back, for the paint
    /// pass, the visible elements (as input positions, in scene order) and
    /// their opaque regions in output space.
    #[verifier::rlimit(100)]
    fn analyze<E: Element>(&mut self, age: usize, elements: &Vec<E>, scale: Scale, geo: Rect) -> (r:
        (Option<Vec<Rect>>, Vec<usize>, Vec<Vec<Rect>>, RenderElementStates))
        requires
            old(self).inv(),
            geo.valid(),
        ensures
            ({
                let sv = old(self).state_view();
                let infos = frame_infos(elements@, scale, sv.elements);
                let pre = frame_damage_pre(sv, infos, geo, age as int);
                let placed = scene(infos, geo);
                &&& final(self).inv()
                &&& final(self).state_view() == next_state_view(sv, infos, geo, age as int)
                &&& final(self).spec_mode() == old(self).spec_mode()
                &&& report_matches(r.3.states@, spec_report(infos, geo))
                &&& (r.0 is None <==> (forall|px: int, py: int|
                    !(covers(pre, px, py) && geo.has_px(px, py))))
                &&& (r.0 matches Some(v) ==> {
                    &&& pairwise_disjoint(v@)
                    &&& all_valid(v@)
                    &&& all_nonempty(v@)
                    &&& all_contained_in(v@, geo)
                    &&& v@.len() > 0
                    &&& forall|px: int, py: int|
                        covers(v@, px, py) <==> (covers(pre, px, py) && geo.has_px(px, py))
                })
                &&& r.1@.len() == placed.len()
                &&& (forall|k: int|
                    0 <= k < placed.len() ==> (#[trigger] r.1@[k]) as int == placed[k].idx
                        && placed[k].idx < elements@.len())
                &&& r.2@.len() == placed.len()
                &&& (forall|k: int|
                    0 <= k < placed.len() ==> (#[trigger] r.2@[k])@ == placed[k].opaque_out)
            }),
    {
        let ghost sv = old(self).last_state@;
        let ghost prior = sv.elements;
        let ghost infos = frame_infos(elements@, scale, prior);

        let mut damage: Vec<Rect> = Vec::new();
        let mut render_idx: Vec<usize> = Vec::new();
        let mut opaque_regions: Vec<Vec<Rect>> = Vec::new();
        let mut flat_opaques: Vec<Rect> = Vec::new();
        let mut report: std::collections::HashMap<u64, RenderElementState> =
            std::collections::HashMap::new();

        // Visibility pass, front to back: collect each element's own damage,
        // its opaque regions, and its visibility.
        let n = elements.len();
        for i in 0..n
            invariant
                *self == *old(self),
                self.last_state.wf(),
                geo.valid(),
                n == elements@.len(),
                sv == old(self).last_state@,
                prior == sv.elements,
                infos == frame_infos(elements@, scale, prior),
                render_idx@.len() == scene_prefix(infos, geo, i as int).len(),
                forall|k: int|
                    0 <= k < render_idx@.len() ==> (#[trigger] render_idx@[k]) as int
                        == scene_prefix(infos, geo, i as int)[k].idx,
                opaque_regions@.len() == scene_prefix(infos, geo, i as int).len(),
                forall|k: int|
                    0 <= k < opaque_regions@.len() ==> (#[trigger] opaque_regions@[k])@
                        == scene_prefix(infos, geo, i as int)[k].opaque_out,
                forall|k: int|
                    0 <= k < opaque_regions@.len() ==> all_bounded(
                        (#[trigger] opaque_regions@[k])@,
                        0x2000_0000,
                    ),
                flat_opaques@ == acc_opaques(scene_prefix(infos, geo, i as int)),
                all_bounded(flat_opaques@, 0x2000_0000),
                damage@ == a_damage(scene_prefix(infos, geo, i as int), geo),
                all_bounded(damage@, 0x2000_0000),
                report_matches(report@, report_prefix(infos, geo, i as int)),
        {
            let ghost placed_i = scene_prefix(infos, geo, i as int);
            let e = &elements[i];
            let id = e.id();
            let geometry = e.geometry(scale);
            proof {
                assert(infos[i as int].id == id);
                assert(infos[i as int].geometry == geometry);
            }
            match geometry.intersection(geo) {
                None => {
                    let ghost rep0 = report@;
                    record_skipped(&mut report, id);
                    proof {
                        assert(scene_prefix(infos, geo, i as int + 1) == placed_i);
                        lemma_report_skip(rep0, report_prefix(infos, geo, i as int), id);
                    }
                },
                Some(clipped) => {
                    let mut base: Vec<Rect> = Vec::new();
                    base.push(clipped);
                    let pieces = crate::geometry::subtract_rects(base, &flat_opaques);
                    proof {
                        assert(seq![clipped] =~= Seq::<Rect>::empty().push(clipped));
                        assert(pieces@ == spec_subtract_all(seq![clipped], flat_opaques@));
                        crate::geometry::lemma_subtract_all_props(seq![clipped], flat_opaques@);
                        assert forall|ii: int| 0 <= ii < pieces@.len() implies (#[trigger] pieces@[
                        ii]).bounded(0x4000_0000) by {
                            assert(pieces@[ii].bounded(0x2000_0000));
                        }
                    }
                    let area = crate::geometry::sum_areas(&pieces);
                    proof {
                        lemma_occlusion_area(clipped, flat_opaques@);
                        crate::geometry::lemma_sum_areas_sign(pieces@);
                    }
                    if area == 0 {
                        let ghost rep0 = report@;
                        record_skipped(&mut report, id);
                        proof {
                            assert(fully_occluded(clipped, acc_opaques(placed_i)));
                            assert(scene_prefix(infos, geo, i as int + 1) == placed_i);
                            lemma_report_skip(rep0, report_prefix(infos, geo, i as int), id);
                        }
                    } else {
                        let prior_idx = index_map_get(&self.last_state.ids, id);
                        proof {
                            lemma_group_pos(
                                &self.last_state.ids,
                                &self.last_state.states,
                                id,
                                prior_idx,
                            );
                        }
                        let commit_arg: Option<u64> = match prior_idx {
                            Some(idx) => Some(self.last_state.states[idx].last_commit),
                            None => None,
                        };
                        proof {
                            assert(commit_arg == prior_commit(prior, id));
                            assert(infos[i as int].damage == elements@[i as int].spec_damage_since(
                                scale,
                                commit_arg,
                            ));
                        }
                        let edmg = e.damage_since(scale, commit_arg);
                        let mut translated = crate::geometry::clip_translate(
                            &edmg,
                            geometry.loc,
                            geo,
                        );
                        damage.append(&mut translated);
                        let eop = e.opaque_regions(scale);
                        let op_out = crate::geometry::clip_translate(&eop, geometry.loc, geo);
                        let mut flat_add = crate::geometry::copy_rects(&op_out);
                        flat_opaques.append(&mut flat_add);
                        opaque_regions.push(op_out);
                        render_idx.push(i);
                        let ghost rep0 = report@;
                        record_rendered(&mut report, id, area);
                        proof {
                            let newp = Placed {
                                idx: i as int,
                                info: infos[i as int],
                                clipped,
                                opaque_out: spec_clip_translate(
                                    infos[i as int].opaque,
                                    infos[i as int].geometry.loc,
                                    geo,
                                ),
                            };
                            assert(!fully_occluded(clipped, acc_opaques(placed_i)));
                            assert(scene_prefix(infos, geo, i as int + 1) == placed_i.push(newp));
                            assert(placed_i.push(newp).drop_last() =~= placed_i);
                            assert(placed_i.push(newp).last() == newp);
                            crate::geometry::lemma_clip_translate_props(
                                infos[i as int].opaque,
                                infos[i as int].geometry.loc,
                                geo,
                            );
                            crate::geometry::lemma_clip_translate_props(
                                infos[i as int].damage,
                                infos[i as int].geometry.loc,
                                geo,
                            );
                            lemma_report_rendered(
                                rep0,
                                report_prefix(infos, geo, i as int),
                                id,
                                area,
                                spec_visible_area(clipped, acc_opaques(placed_i)),
                            );
                        }
                    }
                },
            }
        }
        proof {
            assert(scene_prefix(infos, geo, n as int) == scene(infos, geo));
            lemma_scene_prefix_props(infos, geo, n as int);
        }
        let ghost placed = scene(infos, geo);

        // Elements that vanished since the last frame dirty the pixels of
        // their old geometries that nothing now in front covers.
        let pairs = index_map_pairs(&self.last_state.ids);
        let np = pairs.len();
        for t in 0..np
            invariant
                *self == *old(self),
                self.last_state.wf(),
                geo.valid(),
                sv == old(self).last_state@,
                prior == sv.elements,
                infos == frame_infos(elements@, scale, prior),
                placed == scene(infos, geo),
                np == prior.len(),
                pairs@ == index_entries(&self.last_state.ids),
                n == elements@.len(),
                render_idx@.len() == placed.len(),
                forall|k: int|
                    0 <= k < render_idx@.len() ==> (#[trigger] render_idx@[k]) as int
                        == placed[k].idx,
                opaque_regions@.len() == placed.len(),
                forall|k: int|
                    0 <= k < opaque_regions@.len() ==> (#[trigger] opaque_regions@[k])@
                        == placed[k].opaque_out,
                forall|k: int|
                    0 <= k < opaque_regions@.len() ==> all_bounded(
                        (#[trigger] opaque_regions@[k])@,
                        0x2000_0000,
                    ),
                damage@ == a_damage(placed, geo) + gone_prefix(prior, placed, t as int),
                all_bounded(damage@, 0x2000_0000),
        {
            let (pid, idx) = pairs[t];
            proof {
                assert(index_entries(&self.last_state.ids)[t as int] == (pid, idx));
                assert(idx == t);
                assert(prior[t as int].id == pid);
            }
            let mut found = false;
            let nr = render_idx.len();
            for k in 0..nr
                invariant
                    nr == render_idx@.len(),
                    n == elements@.len(),
                    placed == scene(infos, geo),
                    infos == frame_infos(elements@, scale, prior),
                    render_idx@.len() == placed.len(),
                    forall|kk: int|
                        0 <= kk < render_idx@.len() ==> (#[trigger] render_idx@[kk]) as int
                            == placed[kk].idx,
                    found <==> exists|kk: int|
                        0 <= kk < k && (#[trigger] placed[kk]).info.id == pid,
            {
                proof {
                    lemma_scene_prefix_props(infos, geo, n as int);
                    assert(placed[k as int].idx < n);
                    assert(placed[k as int].info == infos[placed[k as int].idx]);
                }
                let ei = render_idx[k];
                if elements[ei].id() == pid {
                    found = true;
                    proof {
                        assert(placed[k as int].info.id == pid);
                    }
                }
            }
            proof {
                assert(found == placed_has_id(placed, pid));
            }
            if !found {
                let ghost insts = prior[t as int].instances;
                proof {
                    assert(insts =~= Seq::new(
                        self.last_state.states@[t as int].last_instances@.len(),
                        |j: int|
                            (
                                self.last_state.states@[t as int].last_instances@[j].last_geometry,
                                self.last_state.states@[t as int].last_instances@[
                                    j
                                ].last_z_index as int,
                            ),
                    ));
                }
                let ni = self.last_state.states[idx].last_instances.len();
                for j in 0..ni
                    invariant
                        *self == *old(self),
                        self.last_state.wf(),
                        geo.valid(),
                        sv == old(self).state_view(),
                        prior == sv.elements,
                        infos == frame_infos(elements@, scale, prior),
                        placed == scene(infos, geo),
                        t < prior.len(),
                        idx == t,
                        idx < self.last_state.states@.len(),
                        insts == prior[t as int].instances,
                        ni == insts.len(),
                        ni == self.last_state.states@[t as int].last_instances@.len(),
                        forall|jj: int|
                            0 <= jj < ni ==> insts[jj] == (
                                (#[trigger] self.last_state.states@[t as int].last_instances@[
                                    jj
                                ]).last_geometry,
                                self.last_state.states@[t as int].last_instances@[
                                    jj
                                ].last_z_index as int,
                            ),
                        opaque_regions@.len() == placed.len(),
                        forall|kk: int|
                            0 <= kk < opaque_regions@.len() ==> (#[trigger] opaque_regions@[kk])@
                                == placed[kk].opaque_out,
                        forall|kk: int|
                            0 <= kk < opaque_regions@.len() ==> all_bounded(
                                (#[trigger] opaque_regions@[kk])@,
                                0x2000_0000,
                            ),
                        damage@ == a_damage(placed, geo) + gone_prefix(prior, placed, t as int)
                            + gone_damage_prefix(prior[t as int], placed, j as int),
                        all_bounded(damage@, 0x2000_0000),
                {
                    let inst = self.last_state.states[idx].last_instances[j];
                    let nn = if inst.last_z_index < opaque_regions.len() {
                        inst.last_z_index
                    } else {
                        opaque_regions.len()
                    };
                    let front = flatten_front(&opaque_regions, nn);
                    let mut base: Vec<Rect> = Vec::new();
                    base.push(inst.last_geometry);
                    let ghost base0 = base@;
                    proof {
                        lemma_flatten_acc(opaque_regions@, placed, nn as int);
                        lemma_flatten_bounded(opaque_regions@, nn as int, 0x2000_0000);
                        assert(insts[j as int].0 == inst.last_geometry);
                        assert(insts[j as int].1 == inst.last_z_index as int);
                        assert(placed.take(nn as int) =~= clamp_take(placed, insts[j as int].1));
                        assert(base0 =~= seq![insts[j as int].0]);
                        assert(inst.last_geometry.bounded(0x2000_0000));
                        assert(all_bounded(base0, 0x2000_0000));
                    }
                    let mut parts = crate::geometry::subtract_rects(base, &front);
                    proof {
                        crate::geometry::lemma_subtract_all_props(base0, front@);
                        assert(parts@ == gone_instance_damage(prior[t as int], placed, j as int));
                    }
                    damage.append(&mut parts);
                    proof {
                        assert(gone_damage_prefix(prior[t as int], placed, j as int + 1)
                            == gone_damage_prefix(prior[t as int], placed, j as int)
                            + gone_instance_damage(prior[t as int], placed, j as int));
                    }
                }
                proof {
                    assert(gone_damage_prefix(prior[t as int], placed, ni as int)
                        == gone_damage_one(prior[t as int], placed));
                }
            }
            proof {
                assert(gone_prefix(prior, placed, t as int + 1) == gone_prefix(
                    prior,
                    placed,
                    t as int,
                ) + (if placed_has_id(placed, prior[t as int].id) {
                    Seq::<Rect>::empty()
                } else {
                    gone_damage_one(prior[t as int], placed)
                }));
                assert(damage@ == a_damage(placed, geo) + gone_prefix(
                    prior,
                    placed,
                    t as int + 1,
                ));
            }
        }
        let ghost gone_total = gone_prefix(prior, placed, prior.len() as int);

        // Elements that moved or changed scene position dirty both their new
        // and their old geometries, behind nothing now in front of them.
        let nr = render_idx.len();
        for k in 0..nr
            invariant
                *self == *old(self),
                self.last_state.wf(),
                geo.valid(),
                sv == old(self).last_state@,
                prior == sv.elements,
                infos == frame_infos(elements@, scale, prior),
                placed == scene(infos, geo),
                nr == placed.len(),
                n == elements@.len(),
                render_idx@.len() == placed.len(),
                forall|kk: int|
                    0 <= kk < render_idx@.len() ==> (#[trigger] render_idx@[kk]) as int
                        == placed[kk].idx,
                opaque_regions@.len() == placed.len(),
                forall|kk: int|
                    0 <= kk < opaque_regions@.len() ==> (#[trigger] opaque_regions@[kk])@
                        == placed[kk].opaque_out,
                forall|kk: int|
                    0 <= kk < opaque_regions@.len() ==> all_bounded(
                        (#[trigger] opaque_regions@[kk])@,
                        0x2000_0000,
                    ),
                damage@ == a_damage(placed, geo) + gone_total + moved_prefix(
                    placed,
                    prior,
                    k as int,
                ),
                all_bounded(damage@, 0x2000_0000),
        {
            proof {
                lemma_scene_prefix_props(infos, geo, n as int);
            }
            let ei = render_idx[k];
            let e = &elements[ei];
            let id = e.id();
            let geometry = e.geometry(scale);
            proof {
                assert(placed[k as int].info == infos[placed[k as int].idx]);
                assert(placed[k as int].info.id == id);
                assert(placed[k as int].info.geometry == geometry);
            }
            let prior_idx = index_map_get(&self.last_state.ids, id);
            proof {
                lemma_group_pos(&self.last_state.ids, &self.last_state.states, id, prior_idx);
            }
            let matched = match prior_idx {
                Some(idx) => {
                    let m = self.last_state.states[idx].instance_matches(geometry, k);
                    proof {
                        let insts = prior[idx as int].instances;
                        let raw = self.last_state.states@[idx as int].last_instances@;
                        assert(insts =~= Seq::new(
                            raw.len(),
                            |j: int| (raw[j].last_geometry, raw[j].last_z_index as int),
                        ));
                        if m {
                            let j = choose|j: int|
                                0 <= j < raw.len() && (#[trigger] raw[j]).last_geometry == geometry
                                    && raw[j].last_z_index == k;
                            assert((insts[j]).0 == geometry && insts[j].1 == k as int);
                            assert(instances_match(insts, geometry, k as int));
                        }
                        if instances_match(insts, geometry, k as int) {
                            let j = choose|j: int|
                                0 <= j < insts.len() && (#[trigger] insts[j]).0 == geometry
                                    && insts[j].1 == k as int;
                            assert(raw[j].last_geometry == geometry && raw[j].last_z_index == k);
                            assert(m);
                        }
                        assert(m == instances_match(insts, geometry, k as int));
                    }
                    m
                },
                None => false,
            };
            if !matched {
                let mut mbase: Vec<Rect> = Vec::new();
                mbase.push(geometry);
                if let Some(idx) = prior_idx {
                    let mut g = geoms_of(&self.last_state.states[idx]);
                    proof {
                        assert(prior[idx as int].instances =~= Seq::new(
                            self.last_state.states@[idx as int].last_instances@.len(),
                            |j: int|
                                (
                                    self.last_state.states@[idx as int].last_instances@[
                                        j
                                    ].last_geometry,
                                    self.last_state.states@[idx as int].last_instances@[
                                        j
                                    ].last_z_index as int,
                                ),
                        ));
                        assert(g@ =~= entry_geoms(prior[idx as int]));
                    }
                    mbase.append(&mut g);
                }
                let front = flatten_front(&opaque_regions, k);
                proof {
                    lemma_flatten_acc(opaque_regions@, placed, k as int);
                    lemma_flatten_bounded(opaque_regions@, k as int, 0x2000_0000);
                    let pos = entry_pos(prior, id);
                    if pos >= 0 {
                        assert(mbase@ =~= seq![geometry] + entry_geoms(prior[pos]));
                    } else {
                        assert(mbase@ =~= seq![geometry] + Seq::<Rect>::empty());
                    }
                }
                let ghost mbase_view = mbase@;
                let mut parts = crate::geometry::subtract_rects(mbase, &front);
                proof {
                    crate::geometry::lemma_subtract_all_props(mbase_view, front@);
                    assert(parts@ == moved_damage_one(k as int, placed, prior));
                }
                damage.append(&mut parts);
            }
            proof {
                assert(moved_prefix(placed, prior, k as int + 1) == moved_prefix(
                    placed,
                    prior,
                    k as int,
                ) + moved_damage_one(k as int, placed, prior));
                assert(damage@ == a_damage(placed, geo) + gone_total + moved_prefix(
                    placed,
                    prior,
                    k as int + 1,
                ));
            }
        }

        // An output of a new size invalidates everything.
        let size_matches = match self.last_state.size {
            Some(s) => s == geo.size,
            None => false,
        };
        if !size_matches {
            let mut d: Vec<Rect> = Vec::new();
            d.push(geo);
            damage = d;
            proof {
                assert(damage@ =~= seq![geo]);
            }
        }
        proof {
            assert(damage@ == frame_new_damage(sv, infos, geo));
        }

        // Snapshot the frame's own damage for the history ring.
        let new_damage = crate::geometry::copy_rects(&damage);

        // Buffer-age reconciliation: a buffer of age `k` holds the frame
        // rendered `k` frames ago, so it additionally needs the stored
        // damage of the `k - 1` frames since then; without enough history,
        // repaint everything.
        if age > 0 && self.last_state.old_damage.len() >= age - 1 {
            self.last_state.old_damage.truncate(age - 1);
            let ghost pre_f = damage@;
            let m = self.last_state.old_damage.len();
            proof {
                assert(m == age - 1);
                assert(forall|tt: int|
                    0 <= tt < m ==> (#[trigger] self.last_state.old_damage@[tt])@
                        == sv.old_damage[tt]);
            }
            for t in 0..m
                invariant
                    m == self.last_state.old_damage@.len(),
                    m == age - 1,
                    sv == old(self).last_state@,
                    forall|tt: int|
                        0 <= tt < m ==> (#[trigger] self.last_state.old_damage@[tt])@
                            == sv.old_damage[tt],
                    self.last_state.wf(),
                    damage@ == pre_f + flatten_prefix(sv.old_damage, t as int),
                    all_bounded(damage@, 0x2000_0000),
                    self.last_state.size == old(self).last_state.size,
                    self.last_state.ids == old(self).last_state.ids,
                    self.last_state.states == old(self).last_state.states,
                    self.last_state.old_damage@ == old(self).last_state.old_damage@.subrange(
                        0,
                        m as int,
                    ),
            {
                let row = &self.last_state.old_damage[t];
                let nrow = row.len();
                let mut add = crate::geometry::copy_rects(row);
                damage.append(&mut add);
                proof {
                    assert(flatten_prefix(sv.old_damage, t as int + 1) == flatten_prefix(
                        sv.old_damage,
                        t as int,
                    ) + sv.old_damage[t as int]);
                }
            }
            proof {
                assert(damage@ == frame_damage_pre(sv, infos, geo, age as int));
            }
        } else {
            let mut d: Vec<Rect> = Vec::new();
            d.push(geo);
            damage = d;
            proof {
                assert(damage@ =~= seq![geo]);
                assert(damage@ == frame_damage_pre(sv, infos, geo, age as int));
            }
        }

        // Clip to the output and split away overlaps, leaving exactly the
        // damaged pixels as disjoint rectangles.
        let fin = crate::geometry::canonicalize(&damage, geo);

        // Remember the frame: the scene's elements grouped by id, the output
        // size, and the frame's own damage at the front of the history.
        let mut new_ids = index_map_new();
        let mut new_states: Vec<ElementState> = Vec::new();
        for k in 0..nr
            invariant
                self.last_state.wf(),
                geo.valid(),
                sv == old(self).last_state@,
                prior == sv.elements,
                infos == frame_infos(elements@, scale, prior),
                placed == scene(infos, geo),
                nr == placed.len(),
                n == elements@.len(),
                render_idx@.len() == placed.len(),
                forall|kk: int|
                    0 <= kk < render_idx@.len() ==> (#[trigger] render_idx@[kk]) as int
                        == placed[kk].idx,
                self.last_state.size == old(self).last_state.size,
                self.last_state.ids == old(self).last_state.ids,
                self.last_state.states == old(self).last_state.states,
                keys_distinct(index_entries(&new_ids)),
                index_entries(&new_ids).len() == new_states@.len(),
                forall|i: int|
                    0 <= i < index_entries(&new_ids).len() ==> (#[trigger] index_entries(&new_ids)[
                        i
                    ]).1 == i,
                group_view(&new_ids, &new_states) =~~= group_prefix(placed, k as int),
                forall|i: int, j: int|
                    0 <= i < new_states@.len() && 0 <= j < new_states@[i].last_instances@.len()
                        ==> (#[trigger] new_states@[i].last_instances@[j]).last_geometry.bounded(
                        0x2000_0000,
                    ),
        {
            proof {
                lemma_scene_prefix_props(infos, geo, n as int);
            }
            let ei = render_idx[k];
            let e = &elements[ei];
            let id = e.id();
            let geometry = e.geometry(scale);
            proof {
                assert(placed[k as int].info == infos[placed[k as int].idx]);
                assert(placed[k as int].info.id == id);
                assert(placed[k as int].info.geometry == geometry);
                assert(placed[k as int].info.commit == elements@[placed[k as int].idx].spec_commit(
                ));
            }
            let inst = ElementInstanceState { last_geometry: geometry, last_z_index: k };
            let ghost g = group_prefix(placed, k as int);
            match index_map_get(&new_ids, id) {
                Some(idx) => {
                    proof {
                        lemma_group_pos(&new_ids, &new_states, id, Some(idx));
                    }
                    let mut insts = copy_instances(&new_states[idx].last_instances);
                    insts.push(inst);
                    let commit_keep = new_states[idx].last_commit;
                    replace_state(&mut new_states, idx, ElementState {
                        last_commit: commit_keep,
                        last_instances: insts,
                    });
                    proof {
                        assert(group_view(&new_ids, &new_states) =~~= group_step(g, placed[k as int], k as int));
                    }
                },
                None => {
                    proof {
                        lemma_group_pos(&new_ids, &new_states, id, None);
                    }
                    let newlen = new_states.len();
                    let _ = index_map_insert(&mut new_ids, id, newlen);
                    let mut insts: Vec<ElementInstanceState> = Vec::new();
                    insts.push(inst);
                    new_states.push(ElementState {
                        last_commit: e.current_commit(),
                        last_instances: insts,
                    });
                    proof {
                        assert(group_view(&new_ids, &new_states) =~~= group_step(g, placed[k as int], k as int));
                    }
                },
            }
        }
        self.last_state.size = Some(geo.size);
        self.last_state.ids = new_ids;
        self.last_state.states = new_states;
        self.last_state.old_damage.push_front(new_damage);
        proof {
            assert(self.last_state@.elements =~~= next_state_view(sv, infos, geo, age as int).elements);
            assert(self.last_state@.old_damage =~~= next_state_view(sv, infos, geo, age as int).old_damage);
            assert(self.last_state@ =~~= next_state_view(sv, infos, geo, age as int));
        }

        proof {
            assert forall|px: int, py: int| #![trigger covers(fin@, px, py)]
                covers(fin@, px, py) <==> (covers(
                    frame_damage_pre(sv, infos, geo, age as int),
                    px,
                    py,
                ) && geo.has_px(px, py)) by {
                assert(covers(fin@, px, py) <==> (covers(damage@, px, py) && geo.has_px(px, py)));
            }
        }
        let states = RenderElementStates { states: report };
        if fin.len() == 0 {
            (None, render_idx, opaque_regions, states)
        } else {
            (Some(fin), render_idx, opaque_regions, states)
        }
    }

    /// Compute this frame's damage without painting: the rectangles that a
    /// repaint must cover (or `None` when nothing needs repainting), and the
    /// per-element visibility report.  The tracker's memory is updated
    /// either way, so the next frame has its baselines.
    pub fn damage_output<E: Element>(&mut self, age: usize, elements: &Vec<E>) -> (r: Result<
        (Option<Vec<Rect>>, RenderElementStates),
        OutputNoMode,
    >)
        requires
            old(self).inv(),
        ensures
            final(self).inv(),
            final(self).spec_mode() == old(self).spec_mode(),
            r is Err <==> old(self).spec_mode().spec_resolve() is None,
            r is Err ==> final(self).state_view() == old(self).state_view(),
            (match old(self).spec_mode().spec_resolve() {
                None => true,
                Some(t) => ({
                    let geo = output_geo_of(t.0, t.2);
                    let sv = old(self).state_view();
                    let infos = frame_infos(elements@, t.1, sv.elements);
                    let pre = frame_damage_pre(sv, infos, geo, age as int);
                    &&& final(self).state_view() == next_state_view(sv, infos, geo, age as int)
                    &&& (r matches Ok(o) ==> {
                        &&& report_matches(o.1.states@, spec_report(infos, geo))
                        &&& (o.0 is None <==> (forall|px: int, py: int|
                            !(covers(pre, px, py) && geo.has_px(px, py))))
                        &&& (o.0 matches Some(v) ==> {
                            &&& pairwise_disjoint(v@)
                            &&& all_valid(v@)
                            &&& all_nonempty(v@)
                            &&& all_contained_in(v@, geo)
                            &&& v@.len() > 0
                            &&& forall|px: int, py: int|
                                covers(v@, px, py) <==> (covers(pre, px, py) && geo.has_px(
                                    px,
                                    py,
                                ))
                        })
                        &&& (absorbed(sv, infos, geo) && age == 1 ==> o.0 is None)
                        &&& (sv == empty_state_view() && !geo.spec_is_empty() ==> (
                        o.0 matches Some(w) && (forall|px: int, py: int|
                            covers(w@, px, py) <==> geo.has_px(px, py))))
                        &&& (age_usable(sv, age as int) ==> (o.0 matches Some(w)
                            ==> (forall|px: int, py: int|
                            covers(flatten_prefix(sv.old_damage, age - 1), px, py) && geo.has_px(
                                px,
                                py,
                            ) ==> covers(w@, px, py))))
                    })
                }),
            }),
    {
        let (size, scale, transform) = match self.mode.resolve() {
            Ok(t) => t,
            Err(e) => {
                return Err(e);
            },
        };
        let geo = output_geo(size, transform);
        let (damage_opt, _render_idx, _opaque_regions, states) = self.analyze(
            age,
            elements,
            scale,
            geo,
        );
        proof {
            let sv = old(self).state_view();
            let infos = frame_infos(elements@, scale, sv.elements);
            let pre = frame_damage_pre(sv, infos, geo, age as int);
            if absorbed(sv, infos, geo) && age == 1 {
                assert forall|px: int, py: int|
                    !(covers(frame_damage_pre(sv, infos, geo, 1), px, py) && geo.has_px(
                        px,
                        py,
                    )) by {
                    lemma_absorbed_idle(sv, infos, geo, px, py);
                }
            }
            if sv == empty_state_view() && !geo.spec_is_empty() {
                crate::geometry::lemma_nonempty_px(geo);
                lemma_full_redraw_on_reset(infos, geo, age as int, geo.loc.x as int, geo.loc.y as int);
                assert(covers(pre, geo.loc.x as int, geo.loc.y as int) && geo.has_px(
                    geo.loc.x as int,
                    geo.loc.y as int,
                ));
                if let Some(ref w) = damage_opt {
                    assert forall|px: int, py: int| covers(w@, px, py) <==> geo.has_px(
                        px,
                        py,
                    ) by {
                        lemma_full_redraw_on_reset(infos, geo, age as int, px, py);
                        if covers(w@, px, py) {
                            let i = choose|i: int|
                                0 <= i < w@.len() && (#[trigger] w@[i]).has_px(px, py);
                            assert(w@[i].spec_contained_in(geo));
                        }
                    }
                }
            }
            if age_usable(sv, age as int) {
                if let Some(ref w) = damage_opt {
                    assert forall|px: int, py: int|
                        covers(flatten_prefix(sv.old_damage, age - 1), px, py) && geo.has_px(
                            px,
                            py,
                        ) implies covers(w@, px, py) by {
                        lemma_frame_damage_complete(sv, infos, geo, age as int, px, py);
                    }
                }
            }
        }
        Ok((damage_opt, states))
    }

    /// Analyse the frame and paint it through the backend: clear the damage
    /// that no element covers opaquely, then draw the elements back to
    /// front, each only where it is damaged and not occluded.  A backend
    /// error wipes the tracker's memory — the partially painted buffer can
    /// no longer be trusted, so the next frame repaints everything.
    pub fn render_output<B: Backend, E: RenderElement<B>>(
        &mut self,
        renderer: &mut B,
        age: usize,
        elements: &Vec<E>,
        clear_color: Color,
    ) -> (r: Result<
        (Option<Vec<Rect>>, RenderElementStates),
        DamageTrackedRendererError<B::Error>,
    >)
        requires
            old(self).inv(),
        ensures
            final(self).inv(),
            final(self).spec_mode() == old(self).spec_mode(),
            r matches Err(e) ==> ((e is OutputNoMode) <==> old(
                self,
            ).spec_mode().spec_resolve() is None),
            old(self).spec_mode().spec_resolve() is None ==> (r is Err && final(self).state_view()
                == old(self).state_view()),
            (r matches Err(e) && e is Rendering) ==> final(self).state_view()
                == empty_state_view(),
            (match old(self).spec_mode().spec_resolve() {
                None => true,
                Some(t) => ({
                    let geo = output_geo_of(t.0, t.2);
                    let sv = old(self).state_view();
                    let infos = frame_infos(elements@, t.1, sv.elements);
                    let pre = frame_damage_pre(sv, infos, geo, age as int);
                    &&& ((forall|px: int, py: int| !(covers(pre, px, py) && geo.has_px(px, py)))
                        ==> (r matches Ok(o) && o.0 is None))
                    &&& r matches Ok(o) ==> {
                        &&& final(self).state_view() == next_state_view(sv, infos, geo, age as int)
                        &&& report_matches(o.1.states@, spec_report(infos, geo))
                        &&& (o.0 is None <==> (forall|px: int, py: int|
                            !(covers(pre, px, py) && geo.has_px(px, py))))
                        &&& (o.0 matches Some(v) ==> {
                            &&& pairwise_disjoint(v@)
                            &&& all_valid(v@)
                            &&& all_nonempty(v@)
                            &&& all_contained_in(v@, geo)
                            &&& v@.len() > 0
                            &&& forall|px: int, py: int|
                                covers(v@, px, py) <==> (covers(pre, px, py) && geo.has_px(
                                    px,
                                    py,
                                ))
                        })
                    }
                }),
            }),
    {
        let (size, scale, transform) = match self.mode.resolve() {
            Ok(t) => t,
            Err(e) => {
                return Err(DamageTrackedRendererError::OutputNoMode(e));
            },
        };
        let geo = output_geo(size, transform);
        let ghost sv0 = old(self).state_view();
        let ghost infos0 = frame_infos(elements@, scale, sv0.elements);
        let ghost pre0 = frame_damage_pre(sv0, infos0, geo, age as int);
        let (damage_opt, render_idx, opaque_regions, states) = self.analyze(
            age,
            elements,
            scale,
            geo,
        );
        let damage = match damage_opt {
            None => {
                return Ok((None, states));
            },
            Some(d) => d,
        };
        proof {
            assert(exists|px: int, py: int| covers(pre0, px, py) && geo.has_px(px, py));
        }
        let mut frame = match renderer.render(size, transform) {
            Ok(f) => f,
            Err(e) => {
                self.last_state = RendererState::empty();
                return Err(DamageTrackedRendererError::Rendering(e));
            },
        };
        proof {
            let sv0 = old(self).state_view();
            let infos0 = frame_infos(elements@, scale, sv0.elements);
            let placed0 = scene(infos0, geo);
            lemma_scene_prefix_props(infos0, geo, infos0.len() as int);
            assert forall|kk: int| 0 <= kk < opaque_regions@.len() implies all_bounded(
                (#[trigger] opaque_regions@[kk])@,
                0x2000_0000,
            ) by {
                assert(opaque_regions@[kk]@ == placed0[kk].opaque_out);
                crate::geometry::lemma_clip_translate_in_geo(
                    placed0[kk].info.opaque,
                    placed0[kk].info.geometry.loc,
                    geo,
                );
                assert forall|jj: int| 0 <= jj < opaque_regions@[kk]@.len() implies (
                #[trigger] opaque_regions@[kk]@[jj]).bounded(0x2000_0000) by {
                    assert(opaque_regions@[kk]@[jj].valid());
                }
            }
            assert forall|jj: int| 0 <= jj < damage@.len() implies (#[trigger] damage@[
            jj]).bounded(0x2000_0000) by {
                assert(damage@[jj].valid());
            }
            lemma_flatten_bounded(opaque_regions@, opaque_regions@.len() as int, 0x2000_0000);
        }
        let all_opaque = flatten_front(&opaque_regions, opaque_regions.len());
        let clear = compute_clear_damage(&damage, &all_opaque);
        if let Err(e) = B::clear(&mut frame, clear_color, &clear) {
            self.last_state = RendererState::empty();
            return Err(DamageTrackedRendererError::Rendering(e));
        }
        let ghost saved = self.last_state@;
        let nr = render_idx.len();
        let mut back = nr;
        while back > 0
            invariant
                old(self).spec_mode().spec_resolve() == Some((size, scale, transform)),
                geo == output_geo_of(size, transform),
                sv0 == old(self).state_view(),
                infos0 == frame_infos(elements@, scale, sv0.elements),
                pre0 == frame_damage_pre(sv0, infos0, geo, age as int),
                exists|px: int, py: int| covers(pre0, px, py) && geo.has_px(px, py),
                back <= nr,
                nr == render_idx@.len(),
                nr == opaque_regions@.len(),
                self.last_state@ == saved,
                self.last_state.wf(),
                self.mode == old(self).spec_mode(),
                geo.valid(),
                all_bounded(damage@, 0x2000_0000),
                forall|kk: int|
                    0 <= kk < opaque_regions@.len() ==> all_bounded(
                        (#[trigger] opaque_regions@[kk])@,
                        0x2000_0000,
                    ),
                forall|kk: int|
                    0 <= kk < render_idx@.len() ==> (#[trigger] render_idx@[kk]) < elements@.len(),
            decreases back,
        {
            back = back - 1;
            let ei = render_idx[back];
            let e = &elements[ei];
            let geometry = e.geometry(scale);
            let front = flatten_front(&opaque_regions, back);
            proof {
                lemma_flatten_bounded(opaque_regions@, back as int, 0x2000_0000);
            }
            let ed = compute_element_damage(&damage, geometry, &front);
            if ed.len() > 0 {
                if let Err(err) = e.draw(&mut frame, e.src(), geometry, &ed, scale) {
                    self.last_state = RendererState::empty();
                    return Err(DamageTrackedRendererError::Rendering(err));
                }
            }
        }
        Ok((Some(damage), states))
    }

    /// Mirror a change of the followed output.  Has no effect on a tracker
    /// built for a static output.
    pub fn update_output(&mut self, output: OutputState)
        ensures
            old(self).spec_mode() is Auto ==> final(self).spec_mode()
                == DamageTrackedRendererMode::Auto(output),
            old(self).spec_mode() is Static ==> final(self).spec_mode() == old(self).spec_mode(),
            final(self).state_view() == old(self).state_view(),
            final(self).inv() == old(self).inv(),
    {
        if let DamageTrackedRendererMode::Auto(_) = self.mode {
            self.mode = DamageTrackedRendererMode::Auto(output);
        }
    }
}

} // verus!
