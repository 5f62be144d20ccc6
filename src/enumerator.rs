//! Snapshots of the top-level windows and the filter, sort and select
//! pipeline over them.
use vstd::prelude::*;
use crate::errors::WindowError;
use crate::models::{arranged, stably_sorted, WindowSorter};
use crate::text::{is_substring, lower_of};
use crate::types::{FilterCriteria, Selection, SortCriteria, WindowInfo, WindowPosition};
use crate::utils::{filter_matching, filtered, meets};

verus! {

/// What the platform reported of one window that passed the inclusion test,
/// each part read best-effort.
#[derive(Debug)]
pub struct WindowProbe {
    /// The opaque window handle.
    pub hwnd: isize,
    /// The window title; empty when it could not be read.
    pub title: String,
    /// The window class name; empty when it could not be read.
    pub class_name: String,
    /// The id of the owning process; 0 when unknown.
    pub pid: u32,
    /// The process name and the path of its executable, when the process
    /// could be queried.
    pub process: Option<(String, String)>,
    /// The geometry, when it could be read.
    pub position: Option<WindowPosition>,
}

/// `w` is the record made of `p` at position `index`: process metadata only
/// for a known process id and a successful query, else empty; the all-zero
/// geometry when it could not be read.
pub open spec fn recorded(w: WindowInfo, p: WindowProbe, index: usize) -> bool {
    &&& w.hwnd == p.hwnd
    &&& w.pid == p.pid
    &&& w.title@ == p.title@
    &&& w.class_name@ == p.class_name@
    &&& w.index == index
    &&& match p.process {
        Some((name, file)) if p.pid != 0 => {
            &&& w.process_name@ == name@
            &&& w.process_file@ == file@
        },
        _ => {
            &&& w.process_name@ == Seq::<char>::empty()
            &&& w.process_file@ == Seq::<char>::empty()
        },
    }
    &&& w.position == match p.position {
        Some(g) => g,
        None => WindowPosition { x: 0, y: 0, width: 0, height: 0 },
    }
}

/// Sort criteria with every key inactive.
pub open spec fn inactive_sort() -> SortCriteria {
    SortCriteria { pid: 0, title: 0, position: None }
}

/// Each record carries its 1-based position as its index.
pub open spec fn indexed(ws: Seq<WindowInfo>) -> bool {
    forall|k: int| 0 <= k < ws.len() ==> #[trigger] ws[k].index == k + 1
}

/// Each record of `out` is the record of `snapshot` at its index.
pub open spec fn drawn_from(out: Seq<WindowInfo>, snapshot: Seq<WindowInfo>) -> bool {
    forall|k: int|
        0 <= k < out.len() ==> 1 <= #[trigger] out[k].index <= snapshot.len() && out[k]
            == snapshot[out[k].index - 1]
}

/// The windows of `ws` that `sel` selects, by their stored index.
pub open spec fn selected(ws: Seq<WindowInfo>, sel: Selection) -> Seq<WindowInfo> {
    ws.filter(|w: WindowInfo| sel.selects(w.index))
}

/// The title contains `pat`, ignoring case; the empty text is in every title.
pub open spec fn title_contains(w: WindowInfo, pat: Seq<char>) -> bool {
    pat.len() == 0 || is_substring(lower_of(pat), lower_of(w.title@))
}

impl WindowInfo {
    /// The record of `probe` at 1-based position `index`.
    pub fn from_probe(probe: WindowProbe, index: usize) -> (r: WindowInfo)
        ensures
            recorded(r, probe, index),
    {
        let WindowProbe { hwnd, title, class_name, pid, process, position } = probe;
        let (process_name, process_file) = match process {
            Some(found) => {
                if pid != 0 {
                    found
                } else {
                    (String::new(), String::new())
                }
            },
            None => (String::new(), String::new()),
        };
        let position = match position {
            Some(g) => g,
            None => WindowPosition::default(),
        };
        WindowInfo { hwnd, pid, title, class_name, process_name, process_file, index, position }
    }
}

fn selection_includes(selection: &Selection, index: usize) -> (r: bool)
    ensures
        r == selection.selects(index),
{
    match selection {
        Selection::All => true,
        Selection::Indices(indices) => {
            let mut k: usize = 0;
            while k < indices.len()
                invariant
                    *selection == Selection::Indices(*indices),
                    k <= indices@.len(),
                    forall|j: int| 0 <= j < k ==> indices@[j] != index,
                decreases indices@.len() - k,
            {
                if indices[k] == index {
                    assert(indices@[k as int] == index);
                    return true;
                }
                k = k + 1;
            }
            false
        },
    }
}

fn select_windows(windows: Vec<WindowInfo>, selection: &Selection) -> (r: Vec<WindowInfo>)
    ensures
        r@ == selected(windows@, *selection),
{
    let mut out: Vec<WindowInfo> = Vec::new();
    let mut i: usize = 0;
    assert(windows@.take(0) =~= Seq::<WindowInfo>::empty());
    proof {
        reveal(Seq::filter);
    }
    while i < windows.len()
        invariant
            i <= windows@.len(),
            out@ == selected(windows@.take(i as int), *selection),
        decreases windows@.len() - i,
    {
        proof {
            reveal(Seq::filter);
            assert(windows@.take(i + 1).drop_last() =~= windows@.take(i as int));
        }
        if selection_includes(selection, windows[i].index) {
            out.push(windows[i].clone());
        }
        i = i + 1;
    }
    assert(windows@.take(i as int) =~= windows@);
    out
}

/// A snapshot of the top-level visible windows, each carrying its 1-based
/// position in the snapshot as its index.
pub struct WindowEnumerator {
    windows: Vec<WindowInfo>,
}

impl View for WindowEnumerator {
    type V = Seq<WindowInfo>;

    closed spec fn view(&self) -> Seq<WindowInfo> {
        self.windows@
    }
}

impl WindowEnumerator {
    #[verifier::type_invariant]
    spec fn well_indexed(self) -> bool {
        indexed(self.windows@)
    }

    /// An empty snapshot.
    pub fn new() -> (r: Self)
        ensures
            r@ == Seq::<WindowInfo>::empty(),
    {
        WindowEnumerator { windows: Vec::new() }
    }

    /// The inclusion rule: only visible windows without a parent are captured.
    pub fn should_capture(visible: bool, parent: isize) -> (r: bool)
        ensures
            r == (visible && parent == 0),
    {
        visible && parent == 0
    }

    /// Replaces the snapshot by the windows that the platform reported, in
    /// that order, numbered from 1. When the enumeration itself failed the
    /// snapshot is left empty and the failure is reported.
    pub fn enumerate_all_windows(&mut self, source: Result<Vec<WindowProbe>, u32>) -> (r: Result<
        (),
        WindowError,
    >)
        ensures
            match source {
                Ok(probes) => {
                    &&& r == Ok::<(), WindowError>(())
                    &&& final(self)@.len() == probes@.len()
                    &&& forall|k: int|
                        0 <= k < probes@.len() ==> recorded(
                            #[trigger] final(self)@[k],
                            probes@[k],
                            (k + 1) as usize,
                        )
                },
                Err(code) => {
                    &&& r == Err::<(), WindowError>(WindowError::WindowsApiError(code))
                    &&& final(self)@ == Seq::<WindowInfo>::empty()
                },
            },
            indexed(final(self)@),
    {
        self.windows = Vec::new();
        match source {
            Err(code) => Err(WindowError::WindowsApiError(code)),
            Ok(probes) => {
                let ghost reported = probes@;
                let total = probes.len();
                let mut rest = probes;
                let mut captured: Vec<WindowInfo> = Vec::new();
                while rest.len() > 0
                    invariant
                        total == reported.len(),
                        captured@.len() <= reported.len(),
                        rest@ == reported.subrange(captured@.len() as int, reported.len() as int),
                        forall|k: int|
                            0 <= k < captured@.len() ==> recorded(
                                #[trigger] captured@[k],
                                reported[k],
                                (k + 1) as usize,
                            ),
                        indexed(captured@),
                    decreases rest@.len(),
                {
                    let p = rest.remove(0);
                    let k = captured.len();
                    let w = WindowInfo::from_probe(p, k + 1);
                    captured.push(w);
                }
                self.windows = captured;
                Ok(())
            },
        }
    }

    /// The windows whose title contains `title_substring`, ignoring case.
    pub fn find_by_title(&self, title_substring: &str) -> (r: Vec<WindowInfo>)
        ensures
            r@ == self@.filter(|w: WindowInfo| title_contains(w, title_substring@)),
            drawn_from(r@, self@),
    {
        let criteria = FilterCriteria {
            pid: None,
            title_contains: Some(title_substring.to_owned()),
            class_name_contains: None,
            process_name_contains: None,
            process_file_contains: None,
        };
        let r = self.filter_windows(&criteria);
        assert((|w: WindowInfo| meets(w, criteria)) =~= (|w: WindowInfo|
            title_contains(w, title_substring@)));
        r
    }

    /// The windows that meet `criteria`, in snapshot order.
    pub fn filter_windows(&self, criteria: &FilterCriteria) -> (r: Vec<WindowInfo>)
        ensures
            r@ == filtered(self@, *criteria),
            drawn_from(r@, self@),
    {
        proof {
            use_type_invariant(self);
            lemma_results_keep_indices(self@, *criteria, inactive_sort(), Selection::All);
        }
        filter_matching(self.windows.as_slice(), criteria)
    }

    /// The windows that meet `criteria`, stably sorted under `sort_criteria`.
    pub fn filter_and_sort_windows(&self, criteria: &FilterCriteria, sort_criteria: &SortCriteria) -> (r:
        Vec<WindowInfo>)
        ensures
            stably_sorted(r@, filtered(self@, *criteria), *sort_criteria),
            drawn_from(r@, self@),
    {
        proof {
            use_type_invariant(self);
            lemma_results_keep_indices(self@, *criteria, *sort_criteria, Selection::All);
        }
        WindowSorter::filter_and_sort_windows(self.windows.as_slice(), criteria, sort_criteria)
    }

    /// The windows that meet `criteria` and whose index `selection` selects,
    /// in snapshot order.
    pub fn filter_windows_with_selection(&self, criteria: &FilterCriteria, selection: &Selection) -> (r:
        Vec<WindowInfo>)
        ensures
            r@ == selected(filtered(self@, *criteria), *selection),
            drawn_from(r@, self@),
    {
        proof {
            use_type_invariant(self);
            lemma_results_keep_indices(self@, *criteria, inactive_sort(), *selection);
        }
        let filtered = self.filter_windows(criteria);
        match selection {
            Selection::All => {
                assert(selected(filtered@, *selection) == filtered@) by {
                    lemma_select_all(filtered@, *selection);
                }
                filtered
            },
            Selection::Indices(_) => select_windows(filtered, selection),
        }
    }

    /// The windows that meet `criteria`, stably sorted under
    /// `sort_criteria`, then those whose index `selection` selects.
    pub fn filter_sort_windows_with_selection(
        &self,
        criteria: &FilterCriteria,
        sort_criteria: &SortCriteria,
        selection: &Selection,
    ) -> (r: Vec<WindowInfo>)
        ensures
            exists|m: Seq<WindowInfo>|
                stably_sorted(m, filtered(self@, *criteria), *sort_criteria) && r@ == selected(
                    m,
                    *selection,
                ),
            drawn_from(r@, self@),
    {
        proof {
            use_type_invariant(self);
            lemma_results_keep_indices(self@, *criteria, *sort_criteria, *selection);
        }
        let sorted = WindowSorter::filter_and_sort_windows(
            self.windows.as_slice(),
            criteria,
            sort_criteria,
        );
        let ghost m = sorted@;
        match selection {
            Selection::All => {
                proof {
                    lemma_select_all(m, *selection);
                }
                sorted
            },
            Selection::Indices(_) => select_windows(sorted, selection),
        }
    }

    /// All windows of the snapshot.
    pub fn get_windows(&self) -> (r: &[WindowInfo])
        ensures
            r@ == self@,
            indexed(r@),
    {
        proof {
            use_type_invariant(self);
        }
        self.windows.as_slice()
    }

    /// The window with the given 1-based index, if the snapshot has one.
    pub fn get_window_by_index(&self, index: usize) -> (r: Option<&WindowInfo>)
        ensures
            1 <= index <= self@.len() ==> r == Some(&self@[index - 1]),
            !(1 <= index <= self@.len()) ==> r is None,
            r matches Some(w) ==> w.index == index,
    {
        proof {
            use_type_invariant(self);
        }
        if index >= 1 && index <= self.windows.len() {
            Some(&self.windows[index - 1])
        } else {
            None
        }
    }
}

impl Default for WindowEnumerator {
    /// An empty snapshot.
    fn default() -> (r: Self)
        ensures
            r@ == Seq::<WindowInfo>::empty(),
    {
        Self::new()
    }
}

proof fn lemma_filter_within(s: Seq<WindowInfo>, pred: spec_fn(WindowInfo) -> bool)
    ensures
        forall|k: int| 0 <= k < s.filter(pred).len() ==> s.contains(#[trigger] s.filter(pred)[k]),
    decreases s.len(),
{
    reveal(Seq::filter);
    if s.len() > 0 {
        lemma_filter_within(s.drop_last(), pred);
        let f = s.filter(pred);
        let g = s.drop_last().filter(pred);
        assert forall|k: int| 0 <= k < f.len() implies s.contains(#[trigger] f[k]) by {
            if k < g.len() {
                assert(f[k] == g[k]);
                let j = choose|j: int| 0 <= j < s.drop_last().len() && s.drop_last()[j] == g[k];
                assert(s[j] == f[k]);
            } else {
                assert(f[k] == s.last());
                assert(s[s.len() - 1] == f[k]);
            }
        }
    }
}

proof fn lemma_drawn_from_members(out: Seq<WindowInfo>, s: Seq<WindowInfo>, snapshot: Seq<WindowInfo>)
    requires
        indexed(snapshot),
        drawn_from(s, snapshot),
        forall|k: int| 0 <= k < out.len() ==> s.contains(#[trigger] out[k]),
    ensures
        drawn_from(out, snapshot),
{
    assert forall|k: int| 0 <= k < out.len() implies 1 <= #[trigger] out[k].index
        <= snapshot.len() && out[k] == snapshot[out[k].index - 1] by {
        assert(s.contains(out[k]));
        let j = choose|j: int| 0 <= j < s.len() && s[j] == out[k];
        assert(s[j].index == out[k].index);
    }
}

/// Every snapshot numbers its windows `1..N` in order, and filtering,
/// sorting and selecting only choose and reorder its records: each record
/// of a result is the snapshot's record at that record's index, unchanged.
pub proof fn lemma_results_keep_indices(
    snapshot: Seq<WindowInfo>,
    criteria: FilterCriteria,
    sort_criteria: SortCriteria,
    selection: Selection,
)
    requires
        indexed(snapshot),
    ensures
        forall|k: int| 0 <= k < snapshot.len() ==> #[trigger] snapshot[k].index == k + 1,
        drawn_from(filtered(snapshot, criteria), snapshot),
        drawn_from(selected(filtered(snapshot, criteria), selection), snapshot),
        forall|m: Seq<WindowInfo>|
            #[trigger] stably_sorted(m, filtered(snapshot, criteria), sort_criteria) ==> drawn_from(
                m,
                snapshot,
            ) && drawn_from(selected(m, selection), snapshot),
{
    let f = filtered(snapshot, criteria);
    assert(drawn_from(snapshot, snapshot)) by {
        assert forall|k: int| 0 <= k < snapshot.len() implies 1 <= #[trigger] snapshot[k].index
            <= snapshot.len() && snapshot[k] == snapshot[snapshot[k].index - 1] by {
            assert(snapshot[k].index == k + 1);
        }
    }
    lemma_filter_within(snapshot, |w: WindowInfo| meets(w, criteria));
    lemma_drawn_from_members(f, snapshot, snapshot);
    lemma_filter_within(f, |w: WindowInfo| selection.selects(w.index));
    lemma_drawn_from_members(selected(f, selection), f, snapshot);
    assert forall|m: Seq<WindowInfo>|
        #[trigger] stably_sorted(m, f, sort_criteria) implies drawn_from(m, snapshot)
        && drawn_from(selected(m, selection), snapshot) by {
        let p = choose|p: Seq<int>| arranged(m, f, p, sort_criteria);
        assert forall|k: int| 0 <= k < m.len() implies f.contains(#[trigger] m[k]) by {
            assert(f[p[k]] == m[k]);
        }
        lemma_drawn_from_members(m, f, snapshot);
        lemma_filter_within(m, |w: WindowInfo| selection.selects(w.index));
        lemma_drawn_from_members(selected(m, selection), m, snapshot);
    }
}

proof fn lemma_select_all(ws: Seq<WindowInfo>, sel: Selection)
    requires
        sel is All,
    ensures
        selected(ws, sel) == ws,
    decreases ws.len(),
{
    reveal(Seq::filter);
    if ws.len() > 0 {
        lemma_select_all(ws.drop_last(), sel);
        assert(ws.drop_last().push(ws.last()) =~= ws);
    }
}

} // verus!
