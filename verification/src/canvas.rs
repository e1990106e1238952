//! Selection and editing decisions of the image canvas.
//!
//! The canvas turns pointer and keyboard input into edits of the calibration points, the data
//! points and the selection. Hit-testing and drawing happen around these functions; here the
//! input arrives already resolved to the indices of the points under the pointer.
use vstd::prelude::*;

verus! {

/// What a primary click or drag on the canvas does.
#[derive(PartialEq, Eq, Structural, Clone, Copy, Debug)]
pub enum AppMode {
    Idle,
    Select,
    AddCalib,
    AddData,
    Delete,
    Pan,
    GridRemoval,
}

/// Number of calibration points: X1, X2, Y1, Y2.
pub const CALIB_POINTS: usize = 4;

/// Mode and selection of the canvas. `selected_data_indices` is a set: it holds no index twice.
/// `anchor_data_idx` is the data point last clicked, from which Shift+Click selects a range.
pub struct CanvasState {
    pub mode: AppMode,
    pub selected_calib_idx: Option<usize>,
    pub selected_data_indices: Vec<usize>,
    pub dragging_calib_idx: Option<usize>,
    pub dragging_data_idx: Option<usize>,
    pub anchor_data_idx: Option<usize>,
}

/// The elements of `data` from index `i` on whose index is not marked.
pub open spec fn unmarked_from<T>(data: Seq<T>, marked: Seq<bool>, i: int) -> Seq<T>
    decreases data.len() - i,
{
    if 0 <= i < data.len() {
        let rest = unmarked_from(data, marked, i + 1);
        if marked[i] {
            rest
        } else {
            seq![data[i]] + rest
        }
    } else {
        Seq::empty()
    }
}

/// Index `i` is among the selected indices.
pub open spec fn is_selected(sel: Seq<usize>, i: int) -> bool {
    exists|k: int| 0 <= k < sel.len() && sel[k] == i
}

/// The elements of `data` whose index is not selected, in order.
pub open spec fn unselected<T>(data: Seq<T>, sel: Seq<usize>) -> Seq<T> {
    unmarked_from(data, Seq::new(data.len(), |i: int| is_selected(sel, i)), 0)
}

/// Where the index `s` of a data point moves when point `idx` is removed.
pub open spec fn shift_after_removal(s: int, idx: int) -> int {
    if s > idx {
        s - 1
    } else {
        s
    }
}

/// `t` is among the first `k` indices of `sel`.
pub open spec fn selected_before(sel: Seq<usize>, k: int, t: int) -> bool {
    exists|j: int| 0 <= j < k && sel[j] == t
}

/// The modes in which a primary drag may grab a point.
pub open spec fn grabs_points(mode: AppMode) -> bool {
    mode == AppMode::Select || mode == AppMode::AddCalib || mode == AppMode::AddData
}

/// The data points from `a` to `b`, both included, in either order.
pub open spec fn index_range(a: int, b: int) -> Set<int> {
    Set::new(|t: int| (a <= t <= b) || (b <= t <= a))
}

/// Smallest index in a non-empty list of indices.
pub open spec fn seq_lo(s: Seq<usize>) -> int
    decreases s.len(),
{
    if s.len() <= 1 {
        s[0] as int
    } else if s.last() < seq_lo(s.drop_last()) {
        s.last() as int
    } else {
        seq_lo(s.drop_last())
    }
}

/// Largest index in a non-empty list of indices.
pub open spec fn seq_hi(s: Seq<usize>) -> int
    decreases s.len(),
{
    if s.len() <= 1 {
        s[0] as int
    } else if s.last() > seq_hi(s.drop_last()) {
        s.last() as int
    } else {
        seq_hi(s.drop_last())
    }
}

/// The selection after a click on data point `d`; `old_sel` is the selection before and `sel`
/// the same selection as a list. With `range` (Shift):
/// - from an anchor, the points from the anchor to `d`, added to the selection when `toggle`
///   (Ctrl or Cmd) is held too;
/// - without an anchor, every point from the first to the last of the selection and `d`.
///
/// Otherwise with `toggle`, `d` toggled; otherwise only `d`. A range click on an empty
/// selection without an anchor selects only `d`.
pub open spec fn clicked_selection(old_sel: Set<int>, sel: Seq<usize>, d: int, anchor: Option<usize>, range: bool, toggle: bool) -> Set<int> {
    if range && anchor is Some {
        if toggle {
            old_sel.union(index_range(anchor.unwrap() as int, d))
        } else {
            index_range(anchor.unwrap() as int, d)
        }
    } else if range && sel.len() > 0 {
        index_range(if d < seq_lo(sel) { d } else { seq_lo(sel) }, if d > seq_hi(sel) { d } else { seq_hi(sel) })
    } else if !toggle {
        Set::empty().insert(d)
    } else if old_sel.contains(d) {
        old_sel.remove(d)
    } else {
        old_sel.insert(d)
    }
}

/// The anchor after a click on data point `d`: a range click keeps it (a range click on a
/// non-empty selection without an anchor leaves none), any other click moves it to `d`.
pub open spec fn clicked_anchor(anchor: Option<usize>, sel: Seq<usize>, d: usize, range: bool) -> Option<usize> {
    if range && (anchor is Some || sel.len() > 0) {
        anchor
    } else {
        Some(d)
    }
}

/// The selected and dragged calibration indices name points among the first `n`.
pub open spec fn calib_indices_ok(s: CanvasState, n: int) -> bool {
    &&& (s.selected_calib_idx matches Some(c) ==> c < n)
    &&& (s.dragging_calib_idx matches Some(c) ==> c < n)
}

/// The selection after grabbing data point `d`: kept when it already holds `d`, else `d` is
/// added to it (`additive`) or replaces it.
pub open spec fn grabbed_selection(old_sel: Set<int>, d: int, additive: bool) -> Set<int> {
    if old_sel.contains(d) {
        old_sel
    } else if additive {
        old_sel.insert(d)
    } else {
        Set::empty().insert(d)
    }
}

/// The selection after removing data point `idx`: the other selected points keep their
/// selection under their new indices.
pub open spec fn selection_after_removal(old_sel: Set<int>, idx: int) -> Set<int> {
    Set::new(|t: int| (0 <= t < idx && old_sel.contains(t)) || (t >= idx && old_sel.contains(t + 1)))
}

/// The selection after a box selection that enclosed the points marked in `inside`.
pub open spec fn boxed_selection(old_sel: Set<int>, inside: Seq<bool>, additive: bool) -> Set<int> {
    Set::new(|t: int| (additive && old_sel.contains(t)) || (0 <= t < inside.len() && inside[t]))
}

/// What keyboard nudges and pointer drags move.
pub enum MoveTarget {
    /// The calibration point with this index.
    Calib(usize),
    /// The data points whose index is marked.
    Data(Vec<bool>),
    /// Nothing.
    Nothing,
}

impl CanvasState {
    /// The selection holds no index twice.
    pub open spec fn wf(&self) -> bool {
        self.selected_data_indices@.no_duplicates()
    }

    /// The selected data indices as a set.
    pub open spec fn selection(&self) -> Set<int> {
        Set::new(|t: int| is_selected(self.selected_data_indices@, t))
    }

    /// A canvas in `mode` with nothing selected or dragged.
    pub fn new(mode: AppMode) -> (s: Self)
        ensures
            s.wf(),
            s.mode == mode,
            s.selected_calib_idx is None,
            s.selection() == Set::<int>::empty(),
            s.dragging_calib_idx is None,
            s.dragging_data_idx is None,
            s.anchor_data_idx is None,
    {
        CanvasState {
            mode,
            selected_calib_idx: None,
            selected_data_indices: Vec::new(),
            dragging_calib_idx: None,
            dragging_data_idx: None,
            anchor_data_idx: None,
        }
    }

    /// Escape: back to selecting, with nothing selected or dragged.
    pub fn escape(&mut self)
        ensures
            forall|n: int| #[trigger] calib_indices_ok(*final(self), n),
            final(self).wf(),
            final(self).mode == AppMode::Select,
            final(self).selected_calib_idx is None,
            final(self).selection() == Set::<int>::empty(),
            final(self).dragging_calib_idx is None,
            final(self).dragging_data_idx is None,
            final(self).anchor_data_idx is None,
    {
        self.mode = AppMode::Select;
        self.selected_calib_idx = None;
        self.selected_data_indices = Vec::new();
        self.dragging_calib_idx = None;
        self.dragging_data_idx = None;
        self.anchor_data_idx = None;
    }

    /// For each data index below `n`, whether it is selected.
    pub fn selection_marks(&self, n: usize) -> (marks: Vec<bool>)
        ensures
            marks@.len() == n,
            forall|i: int| 0 <= i < n ==> marks@[i] == self.selection().contains(i),
    {
        let mut marks: Vec<bool> = Vec::new();
        let mut i: usize = 0;
        while i < n
            invariant
                i <= n,
                marks@.len() == i,
                forall|j: int| 0 <= j < i ==> !marks@[j],
            decreases n - i,
        {
            marks.push(false);
            i = i + 1;
        }
        let sel = &self.selected_data_indices;
        let mut k: usize = 0;
        while k < sel.len()
            invariant
                k <= sel@.len(),
                marks@.len() == n,
                forall|j: int| 0 <= j < n ==> marks@[j] == selected_before(sel@, k as int, j),
            decreases sel@.len() - k,
        {
            proof {
                lemma_selected_before_step(sel@, k as int);
            }
            let s = sel[k];
            if s < n {
                marks.set(s, true);
            }
            k = k + 1;
        }
        proof {
            lemma_selected_before_all(sel@);
        }
        marks
    }

    /// Deletes every selected data point (indices past the end are ignored) and clears the
    /// selection.
    pub fn delete_selected<T>(&mut self, data: &mut Vec<T>)
        ensures
            forall|n: int| calib_indices_ok(*old(self), n) ==> #[trigger] calib_indices_ok(*final(self), n),
            final(data)@ == unselected(old(data)@, old(self).selected_data_indices@),
            final(self).wf(),
            final(self).selection() == Set::<int>::empty(),
            final(self).mode == old(self).mode,
            final(self).selected_calib_idx == old(self).selected_calib_idx,
            final(self).dragging_calib_idx == old(self).dragging_calib_idx,
            final(self).dragging_data_idx == old(self).dragging_data_idx,
            final(self).anchor_data_idx is None,
    {
        self.anchor_data_idx = None;
        let marks = self.selection_marks(data.len());
        proof {
            assert(marks@ =~= Seq::new(data@.len(), |i: int| is_selected(self.selected_data_indices@, i)));
        }
        remove_marked(data, &marks);
        self.selected_data_indices = Vec::new();
    }

    /// Delete mode: removes data point `idx`; the other selected points stay selected under
    /// their new indices.
    pub fn delete_data_point<T>(&mut self, data: &mut Vec<T>, idx: usize)
        requires
            old(self).wf(),
            idx < old(data)@.len(),
        ensures
            forall|n: int| calib_indices_ok(*old(self), n) ==> #[trigger] calib_indices_ok(*final(self), n),
            final(data)@ == old(data)@.remove(idx as int),
            final(self).wf(),
            final(self).selection() == selection_after_removal(old(self).selection(), idx as int),
            final(self).mode == old(self).mode,
            final(self).selected_calib_idx == old(self).selected_calib_idx,
            final(self).dragging_calib_idx == old(self).dragging_calib_idx,
            final(self).dragging_data_idx == old(self).dragging_data_idx,
            final(self).anchor_data_idx is None,
    {
        self.anchor_data_idx = None;
        data.remove(idx);
        let r = shift_selection(&self.selected_data_indices, idx);
        self.selected_data_indices = r;
    }

    /// Select mode, primary click on calibration point `hit_calib`, else on data point
    /// `hit_data`, else on empty space. `range` is a held Shift key, `toggle` a held Ctrl or
    /// Cmd key.
    pub fn click_select(&mut self, hit_calib: Option<usize>, hit_data: Option<usize>, range: bool, toggle: bool)
        requires
            old(self).wf(),
        ensures
            forall|n: int| calib_indices_ok(*old(self), n) && (hit_calib matches Some(c) ==> c < n)
                ==> #[trigger] calib_indices_ok(*final(self), n),
            final(self).wf(),
            final(self).mode == old(self).mode,
            final(self).dragging_calib_idx == old(self).dragging_calib_idx,
            final(self).dragging_data_idx == old(self).dragging_data_idx,
            match hit_calib {
                Some(c) => final(self).selected_calib_idx == Some(c)
                    && final(self).selection() == Set::<int>::empty()
                    && final(self).anchor_data_idx is None,
                None => final(self).selected_calib_idx is None && match hit_data {
                    Some(d) => final(self).selection()
                        == clicked_selection(old(self).selection(), old(self).selected_data_indices@, d as int, old(self).anchor_data_idx, range, toggle)
                        && final(self).anchor_data_idx == clicked_anchor(old(self).anchor_data_idx, old(self).selected_data_indices@, d, range),
                    None => final(self).selection() == Set::<int>::empty()
                        && final(self).anchor_data_idx is None,
                },
            },
    {
        if let Some(c) = hit_calib {
            self.selected_calib_idx = Some(c);
            self.selected_data_indices = Vec::new();
            self.anchor_data_idx = None;
        } else if let Some(d) = hit_data {
            match (range, self.anchor_data_idx) {
                (true, Some(a)) => {
                    let (lo, hi) = if a <= d { (a, d) } else { (d, a) };
                    let ghost before = self.selection();
                    if !toggle {
                        self.selected_data_indices = Vec::new();
                    }
                    add_range(&mut self.selected_data_indices, lo, hi);
                    proof {
                        if toggle {
                            assert(self.selection() =~= before.union(index_range(a as int, d as int)));
                        } else {
                            assert(self.selection() =~= index_range(a as int, d as int));
                        }
                    }
                },
                (true, None) if self.selected_data_indices.len() > 0 => {
                    let (slo, shi) = extent(&self.selected_data_indices);
                    let lo = if d < slo { d } else { slo };
                    let hi = if d > shi { d } else { shi };
                    self.selected_data_indices = Vec::new();
                    add_range(&mut self.selected_data_indices, lo, hi);
                    proof {
                        assert(self.selection() =~= index_range(lo as int, hi as int));
                    }
                },
                _ => {
                    if toggle {
                        if holds(&self.selected_data_indices, d) {
                            let r = remove_index(&self.selected_data_indices, d);
                            self.selected_data_indices = r;
                        } else {
                            insert_index(&mut self.selected_data_indices, d);
                        }
                    } else {
                        self.selected_data_indices = single_index(d);
                    }
                    self.anchor_data_idx = Some(d);
                },
            }
            self.selected_calib_idx = None;
        } else {
            self.selected_calib_idx = None;
            self.selected_data_indices = Vec::new();
            self.anchor_data_idx = None;
        }
    }

    /// Start of a primary drag on calibration point `hit_calib`, else on data point `hit_data`,
    /// else on empty space. Returns whether a box selection starts.
    pub fn begin_drag(&mut self, hit_calib: Option<usize>, hit_data: Option<usize>, additive: bool) -> (starts_box: bool)
        requires
            old(self).wf(),
        ensures
            final(self).wf(),
            final(self).mode == old(self).mode,
            starts_box == (grabs_points(old(self).mode) && hit_calib is None && hit_data is None
                && old(self).mode == AppMode::Select),
            !grabs_points(old(self).mode) ==> *final(self) == *old(self),
            final(self).anchor_data_idx == (if grabs_points(old(self).mode) && hit_calib is Some {
                None
            } else if grabs_points(old(self).mode) && hit_data is Some {
                hit_data
            } else {
                old(self).anchor_data_idx
            }),
            forall|n: int| calib_indices_ok(*old(self), n) && (hit_calib matches Some(c) ==> c < n)
                ==> #[trigger] calib_indices_ok(*final(self), n),
            grabs_points(old(self).mode) ==> match hit_calib {
                Some(c) => final(self).dragging_calib_idx == Some(c)
                    && final(self).selected_calib_idx == Some(c)
                    && final(self).dragging_data_idx == old(self).dragging_data_idx
                    && final(self).selection() == Set::<int>::empty(),
                None => match hit_data {
                    Some(d) => final(self).dragging_data_idx == Some(d)
                        && final(self).selected_calib_idx is None
                        && final(self).dragging_calib_idx == old(self).dragging_calib_idx
                        && final(self).selection()
                        == grabbed_selection(old(self).selection(), d as int, additive),
                    None => *final(self) == *old(self),
                },
            },
    {
        if self.mode == AppMode::Select || self.mode == AppMode::AddCalib || self.mode == AppMode::AddData {
            if let Some(c) = hit_calib {
                self.dragging_calib_idx = Some(c);
                self.selected_calib_idx = Some(c);
                self.selected_data_indices = Vec::new();
                self.anchor_data_idx = None;
                false
            } else if let Some(d) = hit_data {
                self.dragging_data_idx = Some(d);
                self.anchor_data_idx = Some(d);
                if !holds(&self.selected_data_indices, d) {
                    if !additive {
                        self.selected_data_indices = Vec::new();
                    }
                    insert_index(&mut self.selected_data_indices, d);
                }
                self.selected_calib_idx = None;
                false
            } else {
                self.mode == AppMode::Select
            }
        } else {
            false
        }
    }

    /// End of a primary drag: lets go of the dragged point. Returns whether a point was being
    /// dragged, so that the values of the points are to be computed again.
    pub fn end_drag(&mut self) -> (was_dragging: bool)
        ensures
            forall|n: int| calib_indices_ok(*old(self), n) ==> #[trigger] calib_indices_ok(*final(self), n),
            was_dragging == (old(self).dragging_calib_idx is Some || old(self).dragging_data_idx is Some),
            final(self).dragging_calib_idx is None,
            final(self).dragging_data_idx is None,
            final(self).mode == old(self).mode,
            final(self).selected_calib_idx == old(self).selected_calib_idx,
            final(self).selected_data_indices == old(self).selected_data_indices,
            final(self).anchor_data_idx == old(self).anchor_data_idx,
    {
        let was = self.dragging_calib_idx.is_some() || self.dragging_data_idx.is_some();
        self.dragging_calib_idx = None;
        self.dragging_data_idx = None;
        was
    }

    /// End of a box selection over the data points marked in `inside`: they join the
    /// selection when `additive`, else they replace it. The range anchor is cleared, so that a
    /// following Shift+Click ranges over the boxed selection.
    pub fn box_select(&mut self, inside: &Vec<bool>, additive: bool)
        requires
            old(self).wf(),
        ensures
            forall|n: int| calib_indices_ok(*old(self), n) ==> #[trigger] calib_indices_ok(*final(self), n),
            final(self).wf(),
            final(self).selection() == boxed_selection(old(self).selection(), inside@, additive),
            final(self).anchor_data_idx is None,
            final(self).mode == old(self).mode,
            final(self).selected_calib_idx == old(self).selected_calib_idx,
            final(self).dragging_calib_idx == old(self).dragging_calib_idx,
            final(self).dragging_data_idx == old(self).dragging_data_idx,
    {
        self.anchor_data_idx = None;
        let ghost start = self.selection();
        let ghost start_seq = self.selected_data_indices@;
        assert(forall|t: int| start.contains(t) <==> is_selected(start_seq, t));
        if !additive {
            self.selected_data_indices = Vec::new();
        }
        assert(forall|t: int| is_selected(self.selected_data_indices@, t) <==> (additive && start.contains(t)));
        let mut i: usize = 0;
        while i < inside.len()
            invariant
                i <= inside@.len(),
                self.wf(),
                forall|t: int| #[trigger] is_selected(self.selected_data_indices@, t) <==> ((additive && start.contains(t)) || (0 <= t < i && inside@[t])),
                self.mode == old(self).mode,
                self.selected_calib_idx == old(self).selected_calib_idx,
                self.dragging_calib_idx == old(self).dragging_calib_idx,
                self.dragging_data_idx == old(self).dragging_data_idx,
                self.anchor_data_idx is None,
            decreases inside@.len() - i,
        {
            let ghost before = self.selected_data_indices@;
            if inside[i] {
                insert_index(&mut self.selected_data_indices, i);
            }
            assert forall|t: int| is_selected(self.selected_data_indices@, t) <==> ((additive && start.contains(t)) || (0 <= t < i + 1 && inside@[t])) by {
                assert(is_selected(before, t) <==> ((additive && start.contains(t)) || (0 <= t < i && inside@[t])));
                if !inside@[i as int] {
                    assert(self.selected_data_indices@ == before);
                } else {
                    assert(is_selected(self.selected_data_indices@, t) <==> (is_selected(before, t) || t == i));
                }
            }
            i = i + 1;
        }
        assert(self.selection() =~= boxed_selection(start, inside@, additive));
    }

    /// Adding a calibration point `p`: done in calibration mode while fewer than all four
    /// are placed; the new point becomes the selection, and the fourth switches to adding
    /// data. Returns whether the point was added.
    pub fn add_calib_point<C>(&mut self, calib: &mut Vec<C>, p: C) -> (added: bool)
        ensures
            calib_indices_ok(*old(self), old(calib)@.len() as int) ==> calib_indices_ok(*final(self), final(calib)@.len() as int),
            added == (old(self).mode == AppMode::AddCalib && old(calib)@.len() < CALIB_POINTS),
            old(calib)@.len() <= CALIB_POINTS ==> final(calib)@.len() <= CALIB_POINTS,
            added ==> final(calib)@ == old(calib)@.push(p)
                && final(self).selected_calib_idx == Some(old(calib)@.len() as usize)
                && final(self).selection() == Set::<int>::empty()
                && final(self).anchor_data_idx is None
                && final(self).mode == (if final(calib)@.len() == CALIB_POINTS { AppMode::AddData } else { AppMode::AddCalib })
                && final(self).dragging_calib_idx == old(self).dragging_calib_idx
                && final(self).dragging_data_idx == old(self).dragging_data_idx
                && final(self).wf(),
            !added ==> final(calib)@ == old(calib)@ && *final(self) == *old(self),
    {
        if self.mode == AppMode::AddCalib && calib.len() < CALIB_POINTS {
            calib.push(p);
            self.selected_calib_idx = Some(calib.len() - 1);
            self.selected_data_indices = Vec::new();
            self.anchor_data_idx = None;
            if calib.len() == CALIB_POINTS {
                self.mode = AppMode::AddData;
            }
            true
        } else {
            false
        }
    }

    /// Adding data point `p`: it becomes the only selected point, and the anchor of range
    /// selections.
    pub fn add_data_point<T>(&mut self, data: &mut Vec<T>, p: T)
        requires
            old(data)@.len() < usize::MAX,
        ensures
            forall|n: int| calib_indices_ok(*old(self), n) ==> #[trigger] calib_indices_ok(*final(self), n),
            final(data)@ == old(data)@.push(p),
            final(self).wf(),
            final(self).selection() == Set::<int>::empty().insert(old(data)@.len() as int),
            final(self).anchor_data_idx == Some(old(data)@.len() as usize),
            final(self).selected_calib_idx is None,
            final(self).mode == old(self).mode,
            final(self).dragging_calib_idx == old(self).dragging_calib_idx,
            final(self).dragging_data_idx == old(self).dragging_data_idx,
    {
        data.push(p);
        self.selected_data_indices = single_index(data.len() - 1);
        self.anchor_data_idx = Some(data.len() - 1);
        self.selected_calib_idx = None;
    }

    /// A primary click, pressed on calibration point `hit_calib`, else on data point
    /// `hit_data`; `range` is a held Shift key and `toggle` a held Ctrl or Cmd key (see
    /// `click_select`). `has_image` tells whether an image is loaded; `new_calib` and `new_data`
    /// are the points that a click adds where it lands. Returns whether the values of the data
    /// points are to be computed again.
    pub fn primary_click<C, T>(
        &mut self,
        calib: &mut Vec<C>,
        data: &mut Vec<T>,
        hit_calib: Option<usize>,
        hit_data: Option<usize>,
        range: bool,
        toggle: bool,
        has_image: bool,
        new_calib: C,
        new_data: T,
    ) -> (recompute: bool)
        requires
            old(self).wf(),
            old(self).mode == AppMode::Delete && hit_data is Some ==> hit_data.unwrap() < old(data)@.len(),
            old(self).mode == AppMode::AddData ==> old(data)@.len() < usize::MAX,
        ensures
            final(self).wf(),
            old(calib)@.len() <= CALIB_POINTS ==> final(calib)@.len() <= CALIB_POINTS,
            calib_indices_ok(*old(self), old(calib)@.len() as int)
                && (hit_calib matches Some(c) ==> c < old(calib)@.len())
                ==> calib_indices_ok(*final(self), final(calib)@.len() as int),
            old(self).mode == AppMode::Delete ==> {
                &&& !recompute
                &&& final(calib)@ == old(calib)@
                &&& match hit_data {
                    Some(d) => final(data)@ == old(data)@.remove(d as int)
                        && final(self).selection() == selection_after_removal(old(self).selection(), d as int)
                        && final(self).anchor_data_idx is None
                        && final(self).mode == old(self).mode
                        && final(self).selected_calib_idx == old(self).selected_calib_idx
                        && final(self).dragging_calib_idx == old(self).dragging_calib_idx
                        && final(self).dragging_data_idx == old(self).dragging_data_idx,
                    None => final(data)@ == old(data)@ && *final(self) == *old(self),
                }
            },
            old(self).mode == AppMode::Select ==> {
                &&& !recompute
                &&& final(calib)@ == old(calib)@
                &&& final(data)@ == old(data)@
                &&& final(self).mode == old(self).mode
                &&& final(self).dragging_calib_idx == old(self).dragging_calib_idx
                &&& final(self).dragging_data_idx == old(self).dragging_data_idx
                &&& match hit_calib {
                    Some(c) => final(self).selected_calib_idx == Some(c)
                        && final(self).selection() == Set::<int>::empty()
                        && final(self).anchor_data_idx is None,
                        None => final(self).selected_calib_idx is None && match hit_data {
                        Some(d) => final(self).selection()
                            == clicked_selection(old(self).selection(), old(self).selected_data_indices@, d as int, old(self).anchor_data_idx, range, toggle)
                            && final(self).anchor_data_idx == clicked_anchor(old(self).anchor_data_idx, old(self).selected_data_indices@, d, range),
                        None => final(self).selection() == Set::<int>::empty()
                            && final(self).anchor_data_idx is None,
                    },
                }
            },
            old(self).mode == AppMode::AddCalib ==> {
                &&& final(data)@ == old(data)@
                &&& recompute == (has_image && old(calib)@.len() < CALIB_POINTS)
                &&& recompute ==> final(calib)@ == old(calib)@.push(new_calib)
                    && final(self).selected_calib_idx == Some(old(calib)@.len() as usize)
                    && final(self).selection() == Set::<int>::empty()
                    && final(self).anchor_data_idx is None
                    && final(self).mode == (if final(calib)@.len() == CALIB_POINTS { AppMode::AddData } else { AppMode::AddCalib })
                    && final(self).dragging_calib_idx == old(self).dragging_calib_idx
                    && final(self).dragging_data_idx == old(self).dragging_data_idx
                &&& !recompute ==> final(calib)@ == old(calib)@ && *final(self) == *old(self)
            },
            old(self).mode == AppMode::AddData ==> {
                &&& final(calib)@ == old(calib)@
                &&& recompute == has_image
                &&& recompute ==> final(data)@ == old(data)@.push(new_data)
                    && final(self).selection() == Set::<int>::empty().insert(old(data)@.len() as int)
                    && final(self).anchor_data_idx == Some(old(data)@.len() as usize)
                    && final(self).selected_calib_idx is None
                    && final(self).mode == old(self).mode
                    && final(self).dragging_calib_idx == old(self).dragging_calib_idx
                    && final(self).dragging_data_idx == old(self).dragging_data_idx
                &&& !recompute ==> final(data)@ == old(data)@ && *final(self) == *old(self)
            },
            (old(self).mode == AppMode::Idle || old(self).mode == AppMode::Pan
                || old(self).mode == AppMode::GridRemoval) ==> {
                &&& !recompute
                &&& final(calib)@ == old(calib)@
                &&& final(data)@ == old(data)@
                &&& *final(self) == *old(self)
            },
    {
        if self.mode == AppMode::Delete {
            if let Some(d) = hit_data {
                self.delete_data_point(data, d);
            }
            false
        } else if self.mode == AppMode::Select {
            self.click_select(hit_calib, hit_data, range, toggle);
            false
        } else if has_image {
            if self.mode == AppMode::AddCalib && calib.len() < CALIB_POINTS {
                self.add_calib_point(calib, new_calib)
            } else if self.mode == AppMode::AddData {
                self.add_data_point(data, new_data);
                true
            } else {
                false
            }
        } else {
            false
        }
    }

    /// What an arrow-key nudge moves among `n_data` data points: the selected calibration
    /// point, else the selected data points, if any.
    pub fn nudge_target(&self, n_data: usize) -> (target: MoveTarget)
        ensures
            match target {
                MoveTarget::Calib(c) => self.selected_calib_idx == Some(c),
                MoveTarget::Data(marks) => self.selected_calib_idx is None
                    && self.selected_data_indices@.len() > 0
                    && marks@.len() == n_data
                    && forall|i: int| 0 <= i < n_data ==> marks@[i] == self.selection().contains(i),
                MoveTarget::Nothing => self.selected_calib_idx is None
                    && self.selected_data_indices@.len() == 0,
            },
    {
        if let Some(c) = self.selected_calib_idx {
            MoveTarget::Calib(c)
        } else if self.selected_data_indices.len() > 0 {
            MoveTarget::Data(self.selection_marks(n_data))
        } else {
            MoveTarget::Nothing
        }
    }

    /// What a primary drag moves among `n_data` data points: the dragged calibration point,
    /// else, while a data point is dragged, all selected data points.
    pub fn drag_target(&self, n_data: usize) -> (target: MoveTarget)
        ensures
            match target {
                MoveTarget::Calib(c) => self.dragging_calib_idx == Some(c),
                MoveTarget::Data(marks) => self.dragging_calib_idx is None
                    && self.dragging_data_idx is Some
                    && marks@.len() == n_data
                    && forall|i: int| 0 <= i < n_data ==> marks@[i] == self.selection().contains(i),
                MoveTarget::Nothing => self.dragging_calib_idx is None && self.dragging_data_idx is None,
            },
    {
        if let Some(c) = self.dragging_calib_idx {
            MoveTarget::Calib(c)
        } else if self.dragging_data_idx.is_some() {
            MoveTarget::Data(self.selection_marks(n_data))
        } else {
            MoveTarget::Nothing
        }
    }
}

/// Removing data point `idx` moves every other point `s` to `shift_after_removal(s, idx)`,
/// and the point stays selected there exactly when it was selected before.
pub proof fn law_removal_keeps_selection<T>(data: Seq<T>, sel: Set<int>, idx: int, s: int)
    requires
        0 <= idx < data.len(),
        0 <= s < data.len(),
        s != idx,
    ensures
        data.remove(idx)[shift_after_removal(s, idx)] == data[s],
        selection_after_removal(sel, idx).contains(shift_after_removal(s, idx)) == sel.contains(s),
{
}

/// After removing data point `idx`, a selected index of the new list belongs to a point that
/// was selected before.
pub proof fn law_removal_selects_nothing_new<T>(data: Seq<T>, sel: Set<int>, idx: int, t: int)
    requires
        0 <= idx < data.len(),
        selection_after_removal(sel, idx).contains(t),
    ensures
        t < idx ==> sel.contains(t),
        t >= idx ==> sel.contains(t + 1),
{
}

/// Two Ctrl/Cmd clicks on the same data point leave the selection as it was.
pub proof fn law_toggle_twice(sel: Set<int>, list1: Seq<usize>, list2: Seq<usize>, d: int, anchor: Option<usize>)
    ensures
        clicked_selection(clicked_selection(sel, list1, d, anchor, false, true), list2, d, Some(d as usize), false, true) == sel,
{
    assert(clicked_selection(clicked_selection(sel, list1, d, anchor, false, true), list2, d, Some(d as usize), false, true) =~= sel);
}

/// A Shift+Click on data point `d` from an anchor selects every point from the anchor to `d`,
/// and only them unless Ctrl/Cmd is held too, in which case the earlier selection stays.
pub proof fn law_range_click(sel: Set<int>, list: Seq<usize>, d: int, a: usize, toggle: bool, t: int)
    ensures
        (a <= t <= d || d <= t <= a) ==> clicked_selection(sel, list, d, Some(a), true, toggle).contains(t),
        !toggle ==> (clicked_selection(sel, list, d, Some(a), true, toggle).contains(t) ==> (a <= t <= d || d <= t <= a)),
        toggle ==> (sel.contains(t) ==> clicked_selection(sel, list, d, Some(a), true, toggle).contains(t)),
{
}

/// A Shift+Click on data point `d` without an anchor keeps every selected point, and selects
/// `d` and every point between `d` and any selected point `list[k]`.
pub proof fn law_range_click_from_selection(list: Seq<usize>, d: int, toggle: bool, k: int, t: int)
    requires
        0 <= k < list.len(),
    ensures
        clicked_selection(Set::new(|x: int| is_selected(list, x)), list, d, None, true, toggle).contains(d),
        is_selected(list, t) ==> clicked_selection(Set::new(|x: int| is_selected(list, x)), list, d, None, true, toggle).contains(t),
        (list[k] <= t <= d || d <= t <= list[k]) ==> clicked_selection(Set::new(|x: int| is_selected(list, x)), list, d, None, true, toggle).contains(t),
{
    lemma_extent_bounds(list);
    if is_selected(list, t) {
        let j = choose|j: int| 0 <= j < list.len() && list[j] == t;
        assert(seq_lo(list) <= list[j] <= seq_hi(list));
    }
    assert(seq_lo(list) <= list[k] <= seq_hi(list));
}

/// A box selection selects exactly the enclosed points: in place of the old selection when
/// it is not additive, whatever was selected before, and on top of it when it is.
pub proof fn law_box_selection(sel: Set<int>, other: Set<int>, inside: Seq<bool>, t: int)
    ensures
        boxed_selection(sel, inside, false).contains(t) <==> (0 <= t < inside.len() && inside[t]),
        boxed_selection(sel, inside, false) == boxed_selection(other, inside, false),
        boxed_selection(sel, inside, true).contains(t) <==> (sel.contains(t) || (0 <= t < inside.len() && inside[t])),
{
    assert(boxed_selection(sel, inside, false) =~= boxed_selection(other, inside, false));
}

/// An additive box selection keeps everything that was selected.
pub proof fn law_additive_box_keeps(sel: Set<int>, inside: Seq<bool>)
    ensures
        sel.subset_of(boxed_selection(sel, inside, true)),
{
}

proof fn lemma_selected_before_step(sel: Seq<usize>, k: int)
    requires
        0 <= k < sel.len(),
    ensures
        forall|t: int| selected_before(sel, k + 1, t) <==> (selected_before(sel, k, t) || t == sel[k]),
{
    assert forall|t: int| selected_before(sel, k + 1, t) <==> (selected_before(sel, k, t) || t == sel[k]) by {
        if selected_before(sel, k + 1, t) {
            let j = choose|j: int| 0 <= j < k + 1 && sel[j] == t;
            if j < k {
                assert(selected_before(sel, k, t));
            }
        }
        if selected_before(sel, k, t) {
            let j = choose|j: int| 0 <= j < k && sel[j] == t;
            assert(0 <= j < k + 1 && sel[j] == t);
        }
        if t == sel[k] {
            assert(0 <= k < k + 1 && sel[k] == t);
        }
    }
}

proof fn lemma_selected_before_all(sel: Seq<usize>)
    ensures
        forall|t: int| selected_before(sel, sel.len() as int, t) <==> is_selected(sel, t),
        forall|t: int| !selected_before(sel, 0, t),
{
}

/// Keeps the elements of `data` whose index is not marked.
fn remove_marked<T>(data: &mut Vec<T>, marks: &Vec<bool>)
    requires
        marks@.len() == old(data)@.len(),
    ensures
        final(data)@ == unmarked_from(old(data)@, marks@, 0),
{
    let ghost orig = data@;
    let n = data.len();
    assert(orig.len() == n);
    let mut kept: Vec<T> = Vec::new();
    let mut i: usize = 0;
    while data.len() > 0
        invariant
            i + data@.len() == orig.len(),
            orig.len() <= usize::MAX,
            data@ == orig.skip(i as int),
            marks@.len() == orig.len(),
            kept@ + unmarked_from(orig, marks@, i as int) == unmarked_from(orig, marks@, 0),
        decreases data@.len(),
    {
        let ghost rest = unmarked_from(orig, marks@, i + 1);
        assert(data@[0] == orig[i as int]);
        let x = data.remove(0);
        if !marks[i] {
            let ghost before = kept@;
            kept.push(x);
            assert(kept@ + rest =~= before + (seq![orig[i as int]] + rest));
        }
        assert(data@ =~= orig.skip(i + 1));
        i = i + 1;
    }
    assert(unmarked_from(orig, marks@, i as int) == Seq::<T>::empty());
    assert(kept@ =~= kept@ + Seq::<T>::empty());
    *data = kept;
}

/// The selection `sel` after data point `idx` is removed.
fn shift_selection(sel: &Vec<usize>, idx: usize) -> (r: Vec<usize>)
    requires
        sel@.no_duplicates(),
    ensures
        r@.no_duplicates(),
        forall|t: int| is_selected(r@, t) <==> ((0 <= t < idx && is_selected(sel@, t)) || (t >= idx && is_selected(sel@, t + 1))),
{
    let mut r: Vec<usize> = Vec::new();
    let mut k: usize = 0;
    while k < sel.len()
        invariant
            k <= sel@.len(),
            sel@.no_duplicates(),
            r@.no_duplicates(),
            forall|t: int| is_selected(r@, t) <==> ((0 <= t < idx && selected_before(sel@, k as int, t)) || (t >= idx && selected_before(sel@, k as int, t + 1))),
        decreases sel@.len() - k,
    {
        proof {
            lemma_selected_before_step(sel@, k as int);
        }
        let s = sel[k];
        let ghost before = r@;
        if s != idx {
            let v: usize = if s > idx { s - 1 } else { s };
            proof {
                assert(!is_selected(before, v as int)) by {
                    if is_selected(before, v as int) {
                        assert(selected_before(sel@, k as int, s as int));
                        let j = choose|j: int| 0 <= j < k && sel@[j] == s;
                        assert(sel@[j] == sel@[k as int]);
                    }
                }
            }
            r.push(v);
            proof {
                assert forall|t: int| is_selected(r@, t) <==> (is_selected(before, t) || t == v) by {
                    if is_selected(r@, t) {
                        let j = choose|j: int| 0 <= j < r@.len() && r@[j] == t;
                        if j < before.len() {
                            assert(before[j] == t);
                        }
                    }
                    if is_selected(before, t) {
                        let j = choose|j: int| 0 <= j < before.len() && before[j] == t;
                        assert(r@[j] == t);
                    }
                    if t == v {
                        assert(r@[before.len() as int] == t);
                    }
                }
            }
        }
        assert forall|t: int| is_selected(r@, t) <==> ((0 <= t < idx && selected_before(sel@, k + 1, t)) || (t >= idx && selected_before(sel@, k + 1, t + 1))) by {
            if s != idx {
                assert(is_selected(r@, t) <==> (is_selected(before, t) || t == (if s > idx { s - 1 } else { s as int })));
            } else {
                assert(r@ == before);
            }
        }
        k = k + 1;
    }
    proof {
        lemma_selected_before_all(sel@);
    }
    r
}

/// Whether `sel` holds `i`.
fn holds(sel: &Vec<usize>, i: usize) -> (r: bool)
    ensures
        r == is_selected(sel@, i as int),
{
    let mut k: usize = 0;
    while k < sel.len()
        invariant
            k <= sel@.len(),
            forall|j: int| 0 <= j < k ==> sel@[j] != i,
        decreases sel@.len() - k,
    {
        if sel[k] == i {
            return true;
        }
        k = k + 1;
    }
    false
}

/// Adds `i` to the set `sel`.
fn insert_index(sel: &mut Vec<usize>, i: usize)
    requires
        old(sel)@.no_duplicates(),
    ensures
        final(sel)@.no_duplicates(),
        forall|t: int| is_selected(final(sel)@, t) <==> (is_selected(old(sel)@, t) || t == i),
{
    if !holds(sel, i) {
        let ghost before = sel@;
        sel.push(i);
        proof {
            assert forall|t: int| is_selected(sel@, t) <==> (is_selected(before, t) || t == i) by {
                if is_selected(sel@, t) {
                    let k = choose|k: int| 0 <= k < sel@.len() && sel@[k] == t;
                    if k < before.len() {
                        assert(before[k] == t);
                    }
                }
                if is_selected(before, t) {
                    let k = choose|k: int| 0 <= k < before.len() && before[k] == t;
                    assert(sel@[k] == t);
                }
                if t == i {
                    assert(sel@[before.len() as int] == t);
                }
            }
        }
    }
}

/// Smallest and largest index of a non-empty set of indices.
fn extent(sel: &Vec<usize>) -> (r: (usize, usize))
    requires
        sel@.len() > 0,
    ensures
        r.0 == seq_lo(sel@),
        r.1 == seq_hi(sel@),
{
    let mut lo = sel[0];
    let mut hi = sel[0];
    let mut k: usize = 1;
    proof {
        assert(sel@.take(1).drop_last() =~= Seq::<usize>::empty());
    }
    while k < sel.len()
        invariant
            1 <= k <= sel@.len(),
            lo == seq_lo(sel@.take(k as int)),
            hi == seq_hi(sel@.take(k as int)),
        decreases sel@.len() - k,
    {
        proof {
            assert(sel@.take(k + 1).drop_last() =~= sel@.take(k as int));
        }
        let v = sel[k];
        if v < lo {
            lo = v;
        }
        if v > hi {
            hi = v;
        }
        k = k + 1;
    }
    proof {
        assert(sel@.take(sel@.len() as int) =~= sel@);
    }
    (lo, hi)
}

/// Every index of a non-empty list lies between its smallest and its largest.
proof fn lemma_extent_bounds(s: Seq<usize>)
    requires
        s.len() > 0,
    ensures
        forall|i: int| 0 <= i < s.len() ==> seq_lo(s) <= #[trigger] s[i] <= seq_hi(s),
    decreases s.len(),
{
    if s.len() > 1 {
        lemma_extent_bounds(s.drop_last());
        assert forall|i: int| 0 <= i < s.len() implies seq_lo(s) <= #[trigger] s[i] <= seq_hi(s) by {
            if i < s.len() - 1 {
                assert(s[i] == s.drop_last()[i]);
            }
        }
    }
}

/// Adds the indices `lo..=hi` to the set `sel`.
fn add_range(sel: &mut Vec<usize>, lo: usize, hi: usize)
    requires
        old(sel)@.no_duplicates(),
        lo <= hi,
    ensures
        final(sel)@.no_duplicates(),
        forall|t: int| #[trigger] is_selected(final(sel)@, t) <==> (is_selected(old(sel)@, t) || lo <= t <= hi),
{
    let ghost start = sel@;
    let mut i = lo;
    loop
        invariant_except_break
            lo <= i <= hi,
            sel@.no_duplicates(),
            forall|t: int| #[trigger] is_selected(sel@, t) <==> (is_selected(start, t) || lo <= t < i),
        ensures
            sel@.no_duplicates(),
            forall|t: int| #[trigger] is_selected(sel@, t) <==> (is_selected(start, t) || lo <= t <= hi),
        decreases hi - i,
    {
        insert_index(sel, i);
        if i == hi {
            break;
        }
        i = i + 1;
    }
}

/// The set holding only `i`.
fn single_index(i: usize) -> (sel: Vec<usize>)
    ensures
        sel@.no_duplicates(),
        forall|t: int| is_selected(sel@, t) <==> t == i,
{
    let mut sel: Vec<usize> = Vec::new();
    sel.push(i);
    proof {
        assert forall|t: int| is_selected(sel@, t) <==> t == i by {
            if t == i {
                assert(sel@[0] == t);
            }
        }
    }
    sel
}

/// Removes `i` from the set `sel`, if present.
fn remove_index(sel: &Vec<usize>, i: usize) -> (r: Vec<usize>)
    requires
        sel@.no_duplicates(),
    ensures
        r@.no_duplicates(),
        forall|t: int| is_selected(r@, t) <==> (is_selected(sel@, t) && t != i),
{
    let mut r: Vec<usize> = Vec::new();
    let mut k: usize = 0;
    while k < sel.len()
        invariant
            k <= sel@.len(),
            sel@.no_duplicates(),
            r@.no_duplicates(),
            forall|t: int| is_selected(r@, t) <==> (selected_before(sel@, k as int, t) && t != i),
        decreases sel@.len() - k,
    {
        let s = sel[k];
        let ghost before = r@;
        proof {
            assert forall|t: int| selected_before(sel@, k + 1, t) <==> (selected_before(sel@, k as int, t) || t == s) by {
                if selected_before(sel@, k + 1, t) {
                    let j = choose|j: int| 0 <= j < k + 1 && sel@[j] == t;
                    if j < k {
                        assert(selected_before(sel@, k as int, t));
                    }
                }
                if t == s {
                    assert(sel@[k as int] == t);
                }
            }
        }
        if s != i {
            r.push(s);
            proof {
                assert(!is_selected(before, s as int)) by {
                    if is_selected(before, s as int) {
                        assert(selected_before(sel@, k as int, s as int));
                        let j = choose|j: int| 0 <= j < k && sel@[j] == s;
                        assert(sel@[j] == sel@[k as int]);
                    }
                }
                assert forall|t: int| is_selected(r@, t) <==> (is_selected(before, t) || t == s) by {
                    if is_selected(r@, t) {
                        let j = choose|j: int| 0 <= j < r@.len() && r@[j] == t;
                        if j < before.len() {
                            assert(before[j] == t);
                        }
                    }
                    if is_selected(before, t) {
                        let j = choose|j: int| 0 <= j < before.len() && before[j] == t;
                        assert(r@[j] == t);
                    }
                    if t == s {
                        assert(r@[before.len() as int] == t);
                    }
                }
            }
        }
        assert forall|t: int| is_selected(r@, t) <==> (selected_before(sel@, k + 1, t) && t != i) by {
            if s != i {
                assert(is_selected(r@, t) <==> (is_selected(before, t) || t == s));
            } else {
                assert(r@ == before);
            }
        }
        k = k + 1;
    }
    proof {
        assert forall|t: int| is_selected(r@, t) <==> (is_selected(sel@, t) && t != i) by {
            if is_selected(sel@, t) {
                let j = choose|j: int| 0 <= j < sel@.len() && sel@[j] == t;
                assert(selected_before(sel@, sel@.len() as int, t));
            }
        }
    }
    r
}

} // verus!
