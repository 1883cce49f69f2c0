//! Interaction modes and the node selection: clicks, box selection with a
//! live preview, and the nodes that a drag moves.
use vstd::prelude::*;

verus! {

/// Dragging on the canvas either moves nodes (`Pan`) or draws a selection
/// box (`Select`).
#[derive(Clone, Copy, Debug, PartialEq, Eq, Structural)]
pub enum InteractionMode {
    Pan,
    Select,
}

impl InteractionMode {
    /// The other mode.
    pub fn toggled(self) -> (r: InteractionMode)
        ensures
            r == (match self {
                InteractionMode::Pan => InteractionMode::Select,
                InteractionMode::Select => InteractionMode::Pan,
            }),
    {
        match self {
            InteractionMode::Pan => InteractionMode::Select,
            InteractionMode::Select => InteractionMode::Pan,
        }
    }
}

/// Modifier keys held during a click or at the end of a box selection.
#[derive(Clone, Copy, Debug, PartialEq, Eq, Structural)]
pub struct Modifiers {
    pub ctrl: bool,
    pub shift: bool,
}

/// The selection after a click that hit node `hit` (or no node): with ctrl
/// the node is toggled, with shift it is added, with neither it becomes the
/// whole selection; a click on empty space with neither clears it.
pub open spec fn after_click(sel: Set<usize>, hit: Option<usize>, m: Modifiers) -> Set<usize> {
    match hit {
        Some(n) => if m.ctrl {
            if sel.contains(n) {
                sel.remove(n)
            } else {
                sel.insert(n)
            }
        } else if m.shift {
            sel.insert(n)
        } else {
            set![n]
        },
        None => if !m.ctrl && !m.shift {
            Set::empty()
        } else {
            sel
        },
    }
}

/// The selection after a box selection whose box held `boxed`: with ctrl
/// each boxed node is toggled, with shift they are added, with neither they
/// replace the selection.
pub open spec fn after_box(sel: Set<usize>, boxed: Set<usize>, m: Modifiers) -> Set<usize> {
    if m.ctrl {
        sel.difference(boxed).union(boxed.difference(sel))
    } else if m.shift {
        sel.union(boxed)
    } else {
        boxed
    }
}

pub ghost struct SelectionView {
    pub selected: Set<usize>,
    pub preview: Set<usize>,
}

/// The selected nodes, and the preview: the nodes inside the selection box
/// being drawn.
pub struct SelectionState {
    selected: Vec<usize>,
    preview: Vec<usize>,
}

impl View for SelectionState {
    type V = SelectionView;

    closed spec fn view(&self) -> SelectionView {
        SelectionView { selected: self.selected@.to_set(), preview: self.preview@.to_set() }
    }
}

fn position_of(v: &Vec<usize>, x: usize) -> (r: Option<usize>)
    ensures
        r.is_none() <==> !v@.contains(x),
        r matches Some(i) ==> i < v@.len() && v@[i as int] == x,
{
    let mut i: usize = 0;
    while i < v.len()
        invariant
            i <= v.len(),
            forall|k: int| 0 <= k < i ==> v@[k] != x,
        decreases v.len() - i,
    {
        if v[i] == x {
            return Some(i);
        }
        i = i + 1;
    }
    None
}

proof fn lemma_to_set_contains(s: Seq<usize>, x: usize)
    ensures
        s.to_set().contains(x) <==> s.contains(x),
{
}

fn insert_once(v: &mut Vec<usize>, x: usize)
    requires
        old(v)@.no_duplicates(),
    ensures
        final(v)@.no_duplicates(),
        final(v)@.to_set() == old(v)@.to_set().insert(x),
{
    if position_of(v, x).is_none() {
        v.push(x);
    }
    proof {
        assert forall|a: int, b: int| 0 <= a < b < v@.len() implies v@[a] != v@[b] by {
            if b == old(v)@.len() {
                assert(old(v)@[a] == v@[a]);
            } else {
                assert(old(v)@[a] == v@[a] && old(v)@[b] == v@[b]);
            }
        }
        assert forall|y: usize| #[trigger] v@.to_set().contains(y) <==> old(v)@.to_set().insert(x).contains(y) by {
            lemma_to_set_contains(v@, y);
            lemma_to_set_contains(old(v)@, y);
            if old(v)@.contains(y) {
                let k = choose|k: int| 0 <= k < old(v)@.len() && old(v)@[k] == y;
                assert(v@[k] == y);
            }
            if v@.contains(y) && y != x {
                let k = choose|k: int| 0 <= k < v@.len() && v@[k] == y;
                assert(old(v)@[k] == y);
            }
            if y == x && !old(v)@.contains(x) {
                assert(v@[v@.len() - 1] == y);
            }
        }
        assert(v@.to_set() =~= old(v)@.to_set().insert(x));
    }
}

fn remove_once(v: &mut Vec<usize>, x: usize)
    requires
        old(v)@.no_duplicates(),
    ensures
        final(v)@.no_duplicates(),
        final(v)@.to_set() == old(v)@.to_set().remove(x),
{
    match position_of(v, x) {
        Some(i) => {
            v.remove(i);
            proof {
                let o = old(v)@;
                assert(v@ =~= o.remove(i as int));
                assert forall|a: int, b: int| 0 <= a < b < v@.len() implies v@[a] != v@[b] by {
                    let oa = if a < i { a } else { a + 1 };
                    let ob = if b < i { b } else { b + 1 };
                    assert(v@[a] == o[oa] && v@[b] == o[ob]);
                }
                assert forall|y: usize| #[trigger] v@.to_set().contains(y) <==> o.to_set().remove(x).contains(y) by {
                    lemma_to_set_contains(v@, y);
                    lemma_to_set_contains(o, y);
                    if v@.contains(y) {
                        let k = choose|k: int| 0 <= k < v@.len() && v@[k] == y;
                        let ok = if k < i { k } else { k + 1 };
                        assert(o[ok] == y);
                        assert(ok != i);
                    }
                    if o.contains(y) && y != x {
                        let k = choose|k: int| 0 <= k < o.len() && o[k] == y;
                        assert(k != i);
                        let vk = if k < i { k } else { k - 1 };
                        assert(v@[vk] == y);
                    }
                }
                assert(v@.to_set() =~= o.to_set().remove(x));
            }
        },
        None => {
            proof {
                assert forall|y: usize| #[trigger] v@.to_set().contains(y) <==> v@.to_set().remove(x).contains(y) by {
                    lemma_to_set_contains(v@, y);
                }
                assert(v@.to_set() =~= v@.to_set().remove(x));
            }
        },
    }
}

impl SelectionState {
    pub closed spec fn wf(&self) -> bool {
        self.selected@.no_duplicates() && self.preview@.no_duplicates()
    }

    /// Nothing selected, no preview.
    pub fn new() -> (r: SelectionState)
        ensures
            r.wf(),
            r@.selected == Set::<usize>::empty(),
            r@.preview == Set::<usize>::empty(),
    {
        let r = SelectionState { selected: Vec::new(), preview: Vec::new() };
        proof {
            assert(r.selected@.to_set() =~= Set::<usize>::empty());
            assert(r.preview@.to_set() =~= Set::<usize>::empty());
        }
        r
    }

    pub fn is_selected(&self, n: usize) -> (r: bool)
        ensures
            r == self@.selected.contains(n),
    {
        proof {
            lemma_to_set_contains(self.selected@, n);
        }
        position_of(&self.selected, n).is_some()
    }

    pub fn is_previewed(&self, n: usize) -> (r: bool)
        ensures
            r == self@.preview.contains(n),
    {
        proof {
            lemma_to_set_contains(self.preview@, n);
        }
        position_of(&self.preview, n).is_some()
    }

    /// The selected nodes, each once.
    pub fn selected(&self) -> (r: Vec<usize>)
        requires
            self.wf(),
        ensures
            r@.no_duplicates(),
            r@.to_set() == self@.selected,
    {
        self.selected.clone()
    }

    /// The previewed nodes, each once.
    pub fn preview(&self) -> (r: Vec<usize>)
        requires
            self.wf(),
        ensures
            r@.no_duplicates(),
            r@.to_set() == self@.preview,
    {
        self.preview.clone()
    }

    /// Empties the selection.
    pub fn clear(&mut self)
        requires
            old(self).wf(),
        ensures
            final(self).wf(),
            final(self)@.selected == Set::<usize>::empty(),
            final(self)@.preview == old(self)@.preview,
    {
        self.selected = Vec::new();
        assert(self.selected@.to_set() =~= Set::<usize>::empty());
    }

    /// A click in select mode that hit node `hit`, or no node.
    pub fn click(&mut self, hit: Option<usize>, m: Modifiers)
        requires
            old(self).wf(),
        ensures
            final(self).wf(),
            final(self)@.selected == after_click(old(self)@.selected, hit, m),
            final(self)@.preview == old(self)@.preview,
    {
        match hit {
            Some(n) => {
                if m.ctrl {
                    if self.is_selected(n) {
                        remove_once(&mut self.selected, n);
                    } else {
                        insert_once(&mut self.selected, n);
                    }
                } else if m.shift {
                    insert_once(&mut self.selected, n);
                } else {
                    self.selected = Vec::new();
                    insert_once(&mut self.selected, n);
                    proof {
                        assert(Seq::<usize>::empty().to_set() =~= Set::<usize>::empty());
                        assert(Set::<usize>::empty().insert(n) =~= set![n]);
                    }
                }
            },
            None => {
                if !m.ctrl && !m.shift {
                    self.clear();
                }
            },
        }
    }

    /// Sets the preview to the nodes inside the selection box being drawn.
    pub fn set_preview(&mut self, inside: &Vec<usize>)
        requires
            old(self).wf(),
        ensures
            final(self).wf(),
            final(self)@.preview == inside@.to_set(),
            final(self)@.selected == old(self)@.selected,
    {
        let mut p: Vec<usize> = Vec::new();
        let mut i: usize = 0;
        proof {
            assert(p@.to_set() =~= inside@.subrange(0, 0).to_set());
        }
        while i < inside.len()
            invariant
                i <= inside.len(),
                p@.no_duplicates(),
                p@.to_set() == inside@.subrange(0, i as int).to_set(),
            decreases inside.len() - i,
        {
            insert_once(&mut p, inside[i]);
            proof {
                let s0 = inside@.subrange(0, i as int);
                let s1 = inside@.subrange(0, i as int + 1);
                assert(s1 =~= s0.push(inside@[i as int]));
                assert forall|y: usize| #[trigger] s1.to_set().contains(y) <==> s0.to_set().insert(inside@[i as int]).contains(y) by {
                    lemma_to_set_contains(s1, y);
                    lemma_to_set_contains(s0, y);
                    if s0.contains(y) {
                        let k = choose|k: int| 0 <= k < s0.len() && s0[k] == y;
                        assert(s1[k] == y);
                    }
                    if s1.contains(y) && y != inside@[i as int] {
                        let k = choose|k: int| 0 <= k < s1.len() && s1[k] == y;
                        assert(s0[k] == y);
                    }
                    if y == inside@[i as int] {
                        assert(s1[i as int] == y);
                    }
                }
                assert(s1.to_set() =~= s0.to_set().insert(inside@[i as int]));
            }
            i = i + 1;
        }
        assert(inside@.subrange(0, inside.len() as int) =~= inside@);
        self.preview = p;
    }

    /// Ends a box selection: the previewed nodes are merged into the
    /// selection as the modifiers say (see `after_box`), and the preview is
    /// emptied.
    pub fn finish_box(&mut self, m: Modifiers)
        requires
            old(self).wf(),
        ensures
            final(self).wf(),
            final(self)@.selected == after_box(old(self)@.selected, old(self)@.preview, m),
            final(self)@.preview == Set::<usize>::empty(),
    {
        let ghost s0 = self@.selected;
        let ghost p = self@.preview;
        if !m.ctrl && !m.shift {
            self.selected = Vec::new();
            assert(self.selected@.to_set() =~= Set::<usize>::empty());
        }
        let ghost start = self@.selected;
        let mut i: usize = 0;
        while i < self.preview.len()
            invariant
                i <= self.preview.len(),
                self.wf(),
                self.preview@.to_set() == p,
                start == if !m.ctrl && !m.shift {
                    Set::<usize>::empty()
                } else {
                    s0
                },
                forall|y: usize| #[trigger] self@.selected.contains(y) <==> if self.preview@.subrange(0, i as int).contains(y) {
                    if m.ctrl {
                        !start.contains(y)
                    } else {
                        true
                    }
                } else {
                    start.contains(y)
                },
            decreases self.preview.len() - i,
        {
            let n = self.preview[i];
            let ghost before = self@.selected;
            proof {
                lemma_to_set_contains(self.selected@, n);
            }
            if m.ctrl {
                if position_of(&self.selected, n).is_some() {
                    remove_once(&mut self.selected, n);
                } else {
                    insert_once(&mut self.selected, n);
                }
            } else {
                insert_once(&mut self.selected, n);
            }
            proof {
                let s0p = self.preview@.subrange(0, i as int);
                let s1p = self.preview@.subrange(0, i as int + 1);
                assert(!s0p.contains(n)) by {
                    if s0p.contains(n) {
                        let k = choose|k: int| 0 <= k < s0p.len() && s0p[k] == n;
                        assert(self.preview@[k] == self.preview@[i as int]);
                    }
                }
                assert forall|y: usize| #[trigger] s1p.contains(y) <==> (s0p.contains(y) || y == n) by {
                    if s0p.contains(y) {
                        let k = choose|k: int| 0 <= k < s0p.len() && s0p[k] == y;
                        assert(s1p[k] == y);
                    }
                    if y == n {
                        assert(s1p[i as int] == y);
                    }
                    if s1p.contains(y) && y != n {
                        let k = choose|k: int| 0 <= k < s1p.len() && s1p[k] == y;
                        assert(s0p[k] == y);
                    }
                }
                assert(before.contains(n) == start.contains(n));
            }
            i = i + 1;
        }
        proof {
            assert(self.preview@.subrange(0, self.preview@.len() as int) =~= self.preview@);
            assert forall|y: usize| #[trigger] self@.selected.contains(y) <==> after_box(s0, p, m).contains(y) by {
                lemma_to_set_contains(self.preview@, y);
            }
            assert(self@.selected =~= after_box(s0, p, m));
        }
        self.preview = Vec::new();
        assert(self.preview@.to_set() =~= Set::<usize>::empty());
    }

    /// The nodes that a drag of node `dragged` moves: the whole selection
    /// when `dragged` is selected, else `dragged` alone.
    pub fn drag_targets(&self, dragged: usize) -> (r: Vec<usize>)
        requires
            self.wf(),
        ensures
            r@.no_duplicates(),
            r@.to_set() == if self@.selected.contains(dragged) {
                self@.selected
            } else {
                set![dragged]
            },
    {
        if self.is_selected(dragged) {
            self.selected.clone()
        } else {
            let r = vec![dragged];
            proof {
                assert(r@.to_set() =~= set![dragged]) by {
                    assert forall|y: usize| r@.to_set().contains(y) <==> set![dragged].contains(y) by {
                        lemma_to_set_contains(r@, y);
                        if y == dragged {
                            assert(r@[0] == y);
                        }
                    }
                }
            }
            r
        }
    }

    /// The nodes that fit-to-view frames, out of `n` nodes: the selection
    /// when it is not empty, else every node. The flag tells which.
    pub fn nodes_to_fit(&self, n: usize) -> (r: (Vec<usize>, bool))
        requires
            self.wf(),
        ensures
            r.1 == (self@.selected.len() > 0),
            r.1 ==> r.0@.to_set() == self@.selected,
            !r.1 ==> r.0@ == Seq::new(n as nat, |i: int| i as usize),
    {
        proof {
            self.selected@.unique_seq_to_set();
        }
        if self.selected.len() > 0 {
            (self.selected.clone(), true)
        } else {
            let mut all: Vec<usize> = Vec::new();
            let mut i: usize = 0;
            while i < n
                invariant
                    i <= n,
                    all@ == Seq::new(i as nat, |k: int| k as usize),
                decreases n - i,
            {
                all.push(i);
                assert(all@ =~= Seq::new(i as nat + 1, |k: int| k as usize));
                i = i + 1;
            }
            (all, false)
        }
    }
}

/// Drawing a box around a set of nodes with no modifier and then drawing
/// the same box with ctrl held leaves nothing selected, whatever was
/// selected before; from an empty selection the first box selects exactly
/// the boxed nodes.
pub proof fn lemma_box_then_ctrl_box(sel: Set<usize>, boxed: Set<usize>)
    ensures
        after_box(Set::empty(), boxed, Modifiers { ctrl: false, shift: false }) == boxed,
        after_box(
            after_box(sel, boxed, Modifiers { ctrl: false, shift: false }),
            boxed,
            Modifiers { ctrl: true, shift: false },
        ) == Set::<usize>::empty(),
{
    assert(boxed.difference(boxed).union(boxed.difference(boxed)) =~= Set::<usize>::empty());
}

} // verus!
