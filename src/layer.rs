use vstd::prelude::*;

use crate::context::{lemma_prefix_refl, EventContext, LayerContext};
use crate::event::Event;

verus! {

/// Handle of one stack entry. Handles are handed out in strictly increasing
/// order and are never handed out twice by the same stack.
#[derive(Copy, Clone, Debug, PartialEq, Eq, PartialOrd, Ord, Hash, Structural)]
pub struct LayerId(usize);

impl LayerId {
    pub closed spec fn view(self) -> nat {
        self.0 as nat
    }

    /// Two handles with the same number are the same handle.
    pub proof fn lemma_view_injective(a: LayerId, b: LayerId)
        ensures
            a@ == b@ ==> a == b,
    {
    }

    pub fn value(&self) -> (r: usize)
        ensures
            r as nat == self@,
    {
        self.0
    }
}

/// A unit of behaviour kept in a `LayerStack`: it is attached when pushed,
/// sees updates and events while it is in the stack, and is detached when
/// popped.
pub trait Layer: Sized {
    fn name(&self) -> &str;

    fn on_attach(&mut self, ctx: &mut LayerContext) {
    }

    fn on_detach(&mut self, ctx: &mut LayerContext) {
    }

    fn on_update(&mut self, ctx: &mut LayerContext) {
    }

    /// Handles `event`; `true` when it was handled, which ends the dispatch.
    /// The layer reaches the context only through its methods, each of which
    /// is verified to keep `EventContext::follows`.
    fn on_event(&mut self, ctx: &mut EventContext<Self>, event: &Event) -> (handled: bool)
        requires
            old(ctx).wf(),
        ensures
            EventContext::follows(old(ctx), final(ctx)),
    {
        proof {
            lemma_prefix_refl(ctx.log());
        }
        false
    }
}

/// All handles in `s` are pairwise distinct.
pub open spec fn distinct_ids(s: Seq<LayerId>) -> bool {
    forall|i: int, j: int| 0 <= i < s.len() && 0 <= j < s.len() && i != j ==> s[i]@ != s[j]@
}

/// Handles in `s[lo..hi]` strictly increase from front to back.
pub open spec fn increasing_in(s: Seq<LayerId>, lo: int, hi: int) -> bool {
    forall|i: int, j: int| lo <= i < j < hi ==> s[i]@ < s[j]@
}

/// `s` back to front.
pub open spec fn reversed(s: Seq<LayerId>) -> Seq<LayerId> {
    Seq::new(s.len(), |i: int| s[s.len() - 1 - i])
}

proof fn lemma_remove_contains(s: Seq<LayerId>, index: int)
    requires
        0 <= index < s.len(),
        distinct_ids(s),
    ensures
        forall|x: LayerId| s.remove(index).contains(x) == (s.contains(x) && x != s[index]),
{
    let r = s.remove(index);
    assert forall|x: LayerId| r.contains(x) == (s.contains(x) && x != s[index]) by {
        if r.contains(x) {
            let j = choose|j: int| 0 <= j < r.len() && r[j] == x;
            let oj = if j < index { j } else { j + 1 };
            assert(s[oj] == x);
            assert(s[oj]@ != s[index]@);
        }
        if s.contains(x) && x != s[index] {
            let j = choose|j: int| 0 <= j < s.len() && s[j] == x;
            assert(j != index);
            let nj = if j < index { j } else { j - 1 };
            assert(r[nj] == x);
        }
    }
}

/// Dispatch order visits every overlay before every layer and, within each
/// region, the entry with the larger handle, which was pushed later, first.
pub proof fn lemma_dispatch_order<L>(stack: LayerStack<L>)
    requires
        stack.wf(),
    ensures
        forall|p: int, q: int|
            0 <= p < q < stack.ids().len() ==> {
                let a = #[trigger] reversed(stack.ids())[p];
                let b = #[trigger] reversed(stack.ids())[q];
                (stack.is_overlay(a) && !stack.is_overlay(b)) || (stack.is_overlay(a) == stack.is_overlay(b)
                    && a@ > b@)
            },
{
    let ids = stack.ids();
    let n = ids.len() as int;
    assert forall|p: int, q: int| 0 <= p < q < n implies {
        let a = #[trigger] reversed(ids)[p];
        let b = #[trigger] reversed(ids)[q];
        (stack.is_overlay(a) && !stack.is_overlay(b)) || (stack.is_overlay(a) == stack.is_overlay(b) && a@ > b@)
    } by {
        let i = n - 1 - p;
        let j = n - 1 - q;
        assert(reversed(ids)[p] == ids[i]);
        assert(reversed(ids)[q] == ids[j]);
        assert((i >= stack.boundary()) == stack.is_overlay(ids[i]));
        assert((j >= stack.boundary()) == stack.is_overlay(ids[j]));
    }
}

/// Handles in dispatch order are pairwise distinct.
pub proof fn lemma_dispatch_order_distinct<L>(stack: LayerStack<L>)
    requires
        stack.wf(),
    ensures
        distinct_ids(reversed(stack.ids())),
{
    let ids = stack.ids();
    let n = ids.len() as int;
    assert forall|p: int, q: int| 0 <= p < n && 0 <= q < n && p != q implies reversed(ids)[p]@
        != reversed(ids)[q]@ by {
        assert(reversed(ids)[p] == ids[n - 1 - p]);
        assert(reversed(ids)[q] == ids[n - 1 - q]);
    }
}

/// The boundary is exactly the number of entries that were pushed as layers,
/// and those are exactly the entries in front of it.
pub proof fn lemma_boundary_counts_layers<L>(stack: LayerStack<L>)
    requires
        stack.wf(),
    ensures
        forall|i: int| 0 <= i < stack.ids().len() ==> (i < stack.boundary()) == !stack.is_overlay(
            #[trigger] stack.ids()[i],
        ),
        stack.ids().filter(|x: LayerId| !stack.is_overlay(x)).len() == stack.boundary(),
{
    let ids = stack.ids();
    lemma_layers_in_front(stack, ids.len() as int);
    assert(ids.take(ids.len() as int) =~= ids);
}

proof fn lemma_layers_in_front<L>(stack: LayerStack<L>, k: int)
    requires
        stack.wf(),
        0 <= k <= stack.ids().len(),
    ensures
        stack.ids().take(k).filter(|x: LayerId| !stack.is_overlay(x)).len() == if k < stack.boundary() {
            k
        } else {
            stack.boundary() as int
        },
    decreases k,
{
    let ids = stack.ids();
    let pred = |x: LayerId| !stack.is_overlay(x);
    if k == 0 {
        assert(ids.take(0) =~= Seq::<LayerId>::empty());
        Seq::<LayerId>::empty().lemma_all_neg_filter_empty(pred);
    } else {
        lemma_layers_in_front(stack, k - 1);
        assert(ids.take(k) =~= ids.take(k - 1).push(ids[k - 1]));
        ids.take(k - 1).lemma_filter_push(ids[k - 1], pred);
        assert((k - 1 >= stack.boundary()) == stack.is_overlay(ids[k - 1]));
    }
}

/// One step of a run of pushes and pops, as their contracts describe it: a
/// push hands out `next_id()` and moves it on by one; a pop leaves it.
pub open spec fn handle_step<L>(before: LayerStack<L>, after: LayerStack<L>, issued: Option<LayerId>) -> bool {
    match issued {
        Some(id) => id@ == before.next_id() && after.next_id() == before.next_id() + 1,
        None => after.next_id() == before.next_id(),
    }
}

proof fn lemma_next_id_grows<L>(states: Seq<LayerStack<L>>, issued: Seq<Option<LayerId>>, i: int, j: int)
    requires
        states.len() == issued.len() + 1,
        forall|k: int| 0 <= k < issued.len() ==> handle_step(states[k], states[k + 1], #[trigger] issued[k]),
        0 <= i <= j < states.len(),
    ensures
        states[j].next_id() >= states[i].next_id(),
        i < j && issued[i] is Some ==> states[j].next_id() > issued[i].unwrap()@,
    decreases j - i,
{
    if i < j {
        lemma_next_id_grows(states, issued, i + 1, j);
        assert(handle_step(states[i], states[i + 1], issued[i]));
    }
}

/// Over any run of pushes and pops on one stack, all handles handed out are
/// pairwise distinct, and none of them was in the stack at any earlier point
/// of the run, so a popped handle is never handed out again.
pub proof fn lemma_handles_unique_over_run<L>(states: Seq<LayerStack<L>>, issued: Seq<Option<LayerId>>)
    requires
        states.len() == issued.len() + 1,
        forall|k: int| 0 <= k < states.len() ==> (#[trigger] states[k]).wf(),
        forall|k: int| 0 <= k < issued.len() ==> handle_step(states[k], states[k + 1], #[trigger] issued[k]),
    ensures
        forall|i: int, j: int|
            0 <= i < j < issued.len() && issued[i] is Some && issued[j] is Some ==> #[trigger] issued[i].unwrap()
                != #[trigger] issued[j].unwrap(),
        forall|i: int, j: int|
            0 <= i <= j < issued.len() && issued[j] is Some ==> !(#[trigger] states[i]).contains(
                #[trigger] issued[j].unwrap(),
            ),
{
    assert forall|i: int, j: int|
        0 <= i < j < issued.len() && issued[i] is Some && issued[j] is Some implies #[trigger] issued[i].unwrap()
            != #[trigger] issued[j].unwrap() by {
        lemma_next_id_grows(states, issued, i, j);
        assert(handle_step(states[j], states[j + 1], issued[j]));
    }
    assert forall|i: int, j: int| 0 <= i <= j < issued.len() && issued[j] is Some implies !(
    #[trigger] states[i]).contains(#[trigger] issued[j].unwrap()) by {
        lemma_next_id_grows(states, issued, i, j);
        assert(handle_step(states[j], states[j + 1], issued[j]));
        let x = issued[j].unwrap();
        if states[i].contains(x) {
            let k = choose|k: int| 0 <= k < states[i].ids().len() && states[i].ids()[k] == x;
            assert(states[i].ids()[k]@ < states[i].next_id());
        }
    }
}

/// Index of the entry with handle `id` in `s[lo..hi]`, if any.
pub open spec fn index_in(s: Seq<LayerId>, lo: int, hi: int, id: LayerId) -> Option<int> {
    if exists|i: int| lo <= i < hi && s[i] == id {
        Some(choose|i: int| lo <= i < hi && s[i] == id)
    } else {
        None
    }
}

/// Ordered entries of layers and overlays. The front region `[0, layer_insert)`
/// holds the layers, the back region the overlays, each in order of insertion.
pub struct LayerStack<L> {
    ids: Vec<LayerId>,
    data: Vec<L>,
    layer_insert: usize,
    next_layer_id: usize,
    pushed_as_overlay: Ghost<Map<LayerId, bool>>,
}

impl<L> LayerStack<L> {
    /// Handles of the entries, front to back.
    pub closed spec fn ids(&self) -> Seq<LayerId> {
        self.ids@
    }

    /// The entries, front to back.
    pub closed spec fn layers(&self) -> Seq<L> {
        self.data@
    }

    /// Number of entries in the layer region: the index where overlays begin.
    pub closed spec fn boundary(&self) -> nat {
        self.layer_insert as nat
    }

    /// The handle that the next push will hand out.
    pub closed spec fn next_id(&self) -> nat {
        self.next_layer_id as nat
    }

    /// Whether the entry `id` was pushed as an overlay rather than a layer.
    pub closed spec fn is_overlay(&self, id: LayerId) -> bool {
        self.pushed_as_overlay@[id]
    }

    pub open spec fn len_spec(&self) -> nat {
        self.ids().len()
    }

    pub open spec fn wf(&self) -> bool {
        &&& self.layers().len() == self.ids().len()
        &&& self.boundary() <= self.ids().len()
        &&& self.ids().len() < self.next_id()
        &&& distinct_ids(self.ids())
        &&& forall|i: int| 0 <= i < self.ids().len() ==> 1 <= #[trigger] self.ids()[i]@ < self.next_id()
        &&& increasing_in(self.ids(), 0, self.boundary() as int)
        &&& increasing_in(self.ids(), self.boundary() as int, self.ids().len() as int)
        &&& forall|i: int| 0 <= i < self.ids().len() ==> (i >= self.boundary()) == self.is_overlay(
            #[trigger] self.ids()[i],
        )
    }

    /// Whether `id` names an entry of the layer region.
    pub open spec fn has_layer(&self, id: LayerId) -> bool {
        index_in(self.ids(), 0, self.boundary() as int, id).is_some()
    }

    /// Whether `id` names an entry of the overlay region.
    pub open spec fn has_overlay(&self, id: LayerId) -> bool {
        index_in(self.ids(), self.boundary() as int, self.ids().len() as int, id).is_some()
    }

    pub open spec fn contains(&self, id: LayerId) -> bool {
        self.ids().contains(id)
    }

    pub fn new() -> (r: Self)
        ensures
            r.wf(),
            r.ids() == Seq::<LayerId>::empty(),
            r.layers() == Seq::<L>::empty(),
            r.boundary() == 0,
            r.next_id() == 1,
    {
        LayerStack {
            ids: Vec::new(),
            data: Vec::new(),
            layer_insert: 0,
            next_layer_id: 1,
            pushed_as_overlay: Ghost(Map::empty()),
        }
    }

    pub fn len(&self) -> (r: usize)
        requires
            self.wf(),
        ensures
            r == self.len_spec(),
    {
        self.ids.len()
    }

    /// Number of entries in the layer region.
    pub fn layer_insert(&self) -> (r: usize)
        ensures
            r == self.boundary(),
    {
        self.layer_insert
    }

    /// Whether another push can be given a fresh handle.
    pub fn can_push(&self) -> (r: bool)
        ensures
            r == (self.next_id() < usize::MAX),
    {
        self.next_layer_id < usize::MAX
    }

    /// Inserts `layer` at the end of the layer region, before every overlay.
    pub fn push_layer(&mut self, layer: L) -> (id: LayerId)
        requires
            old(self).wf(),
            old(self).next_id() < usize::MAX,
        ensures
            final(self).wf(),
            id@ == old(self).next_id(),
            final(self).next_id() == old(self).next_id() + 1,
            final(self).ids() == old(self).ids().insert(old(self).boundary() as int, id),
            !final(self).is_overlay(id),
            forall|x: LayerId| x != id ==> final(self).is_overlay(x) == old(self).is_overlay(x),
            final(self).layers() == old(self).layers().insert(old(self).boundary() as int, layer),
            final(self).boundary() == old(self).boundary() + 1,
    {
        let layer_id = LayerId(self.next_layer_id);
        let ghost old_ids = self.ids@;
        self.ids.insert(self.layer_insert, layer_id);
        self.data.insert(self.layer_insert, layer);
        self.next_layer_id = self.next_layer_id + 1;
        self.layer_insert = self.layer_insert + 1;
        proof {
            self.pushed_as_overlay@ = self.pushed_as_overlay@.insert(layer_id, false);
            let b = self.layer_insert - 1;
            assert forall|i: int| 0 <= i < self.ids@.len() implies (i >= self.layer_insert) == self.is_overlay(
                #[trigger] self.ids@[i],
            ) by {
                if i > b {
                    assert(self.ids@[i] == old_ids[i - 1]);
                    assert(old_ids[i - 1]@ < layer_id@);
                } else if i < b {
                    assert(self.ids@[i] == old_ids[i]);
                    assert(old_ids[i]@ < layer_id@);
                }
            }
            assert forall|i: int| 0 <= i < self.ids@.len() implies 1 <= #[trigger] self.ids@[i]@
                < self.next_layer_id by {
                if i > b {
                    assert(self.ids@[i] == old_ids[i - 1]);
                } else if i < b {
                    assert(self.ids@[i] == old_ids[i]);
                }
            }
            assert forall|i: int, j: int|
                0 <= i < self.ids@.len() && 0 <= j < self.ids@.len() && i != j implies self.ids@[i]@
                != self.ids@[j]@ by {
                if i != b && j != b {
                    let oi = if i < b { i } else { i - 1 };
                    let oj = if j < b { j } else { j - 1 };
                    assert(self.ids@[i] == old_ids[oi]);
                    assert(self.ids@[j] == old_ids[oj]);
                } else if i == b {
                    let oj = if j < b { j } else { j - 1 };
                    assert(self.ids@[j] == old_ids[oj]);
                } else {
                    let oi = if i < b { i } else { i - 1 };
                    assert(self.ids@[i] == old_ids[oi]);
                }
            }
            assert forall|i: int, j: int| 0 <= i < j < self.layer_insert implies self.ids@[i]@
                < self.ids@[j]@ by {
                assert(self.ids@[i] == old_ids[i]);
                if j < b {
                    assert(self.ids@[j] == old_ids[j]);
                }
            }
            assert forall|i: int, j: int| self.layer_insert <= i < j < self.ids@.len() implies self.ids@[i]@
                < self.ids@[j]@ by {
                assert(self.ids@[i] == old_ids[i - 1]);
                assert(self.ids@[j] == old_ids[j - 1]);
            }
        }
        layer_id
    }

    /// Appends `overlay` after every other entry.
    pub fn push_overlay(&mut self, overlay: L) -> (id: LayerId)
        requires
            old(self).wf(),
            old(self).next_id() < usize::MAX,
        ensures
            final(self).wf(),
            id@ == old(self).next_id(),
            final(self).next_id() == old(self).next_id() + 1,
            final(self).ids() == old(self).ids().push(id),
            final(self).is_overlay(id),
            forall|x: LayerId| x != id ==> final(self).is_overlay(x) == old(self).is_overlay(x),
            final(self).layers() == old(self).layers().push(overlay),
            final(self).boundary() == old(self).boundary(),
    {
        let layer_id = LayerId(self.next_layer_id);
        let ghost old_ids = self.ids@;
        self.ids.push(layer_id);
        self.data.push(overlay);
        self.next_layer_id = self.next_layer_id + 1;
        proof {
            self.pushed_as_overlay@ = self.pushed_as_overlay@.insert(layer_id, true);
            assert forall|i: int| 0 <= i < self.ids@.len() implies (i >= self.layer_insert) == self.is_overlay(
                #[trigger] self.ids@[i],
            ) by {
                if i < old_ids.len() {
                    assert(self.ids@[i] == old_ids[i]);
                    assert(old_ids[i]@ < layer_id@);
                }
            }
            assert forall|i: int| 0 <= i < self.ids@.len() implies 1 <= #[trigger] self.ids@[i]@
                < self.next_layer_id by {
                if i < old_ids.len() {
                    assert(self.ids@[i] == old_ids[i]);
                }
            }
            assert forall|i: int, j: int|
                0 <= i < self.ids@.len() && 0 <= j < self.ids@.len() && i != j implies self.ids@[i]@
                != self.ids@[j]@ by {
                if i < old_ids.len() {
                    assert(self.ids@[i] == old_ids[i]);
                }
                if j < old_ids.len() {
                    assert(self.ids@[j] == old_ids[j]);
                }
            }
            assert forall|i: int, j: int| 0 <= i < j < self.layer_insert implies self.ids@[i]@
                < self.ids@[j]@ by {
                assert(self.ids@[i] == old_ids[i]);
                assert(self.ids@[j] == old_ids[j]);
            }
            assert forall|i: int, j: int| self.layer_insert <= i < j < self.ids@.len() implies self.ids@[i]@
                < self.ids@[j]@ by {
                assert(self.ids@[i] == old_ids[i]);
                if j < old_ids.len() {
                    assert(self.ids@[j] == old_ids[j]);
                }
            }
        }
        layer_id
    }
    /// Index of the entry with handle `id` among the entries `[lo, hi)`.
    fn find_in(&self, lo: usize, hi: usize, id: LayerId) -> (r: Option<usize>)
        requires
            self.wf(),
            lo <= hi <= self.ids().len(),
        ensures
            match index_in(self.ids(), lo as int, hi as int, id) {
                Some(i) => r == Some(i as usize),
                None => r.is_none(),
            },
    {
        let mut k: usize = lo;
        while k < hi
            invariant
                self.wf(),
                lo <= k <= hi <= self.ids@.len(),
                forall|i: int| lo <= i < k ==> self.ids@[i] != id,
            decreases hi - k,
        {
            if self.ids[k] == id {
                proof {
                    assert(lo <= k < hi && self.ids@[k as int] == id);
                    let c = choose|i: int| lo <= i < hi && self.ids@[i] == id;
                    assert(self.ids@[c]@ == self.ids@[k as int]@);
                    assert(c == k as int);
                }
                return Some(k);
            }
            k = k + 1;
        }
        None
    }

    /// Handle of the entry at `index`, counted from the front.
    pub fn id_at(&self, index: usize) -> (r: LayerId)
        requires
            self.wf(),
            index < self.len_spec(),
        ensures
            r == self.ids()[index as int],
    {
        self.ids[index]
    }

    /// The entry at `index`, counted from the front.
    pub fn get(&self, index: usize) -> (r: &L)
        requires
            self.wf(),
            index < self.len_spec(),
        ensures
            *r == self.layers()[index as int],
    {
        &self.data[index]
    }

    /// The entry at `index`, for a hook call that may change it.
    pub fn get_mut(&mut self, index: usize) -> (r: &mut L)
        requires
            old(self).wf(),
            index < old(self).len_spec(),
        ensures
            *r == old(self).layers()[index as int],
            final(self).layers() == old(self).layers().update(index as int, *final(r)),
            final(self).ids() == old(self).ids(),
            final(self).boundary() == old(self).boundary(),
            final(self).next_id() == old(self).next_id(),
            forall|x: LayerId| final(self).is_overlay(x) == old(self).is_overlay(x),
    {
        &mut self.data[index]
    }

    /// Index, counted from the front, of the entry with handle `id`.
    pub fn position(&self, id: LayerId) -> (r: Option<usize>)
        requires
            self.wf(),
        ensures
            match r {
                Some(i) => i < self.len_spec() && self.ids()[i as int] == id,
                None => !self.contains(id),
            },
    {
        self.find_in(0, self.ids.len(), id)
    }

    /// The handles in dispatch order: back to front, so every overlay before
    /// every layer, and within each region the latest pushed first.
    pub fn dispatch_order(&self) -> (r: Vec<LayerId>)
        requires
            self.wf(),
        ensures
            r@ == reversed(self.ids()),
    {
        let mut r: Vec<LayerId> = Vec::new();
        let n = self.ids.len();
        let mut k: usize = 0;
        while k < n
            invariant
                self.wf(),
                n == self.ids@.len(),
                k <= n,
                r@ == reversed(self.ids@).subrange(0, k as int),
            decreases n - k,
        {
            r.push(self.ids[n - 1 - k]);
            k = k + 1;
            assert(r@ =~= reversed(self.ids@).subrange(0, k as int));
        }
        assert(r@ =~= reversed(self.ids@));
        r
    }

    /// Takes the entry `id` out of the stack, wherever it stands, and tells
    /// whether it stood among the overlays.
    pub(crate) fn take(&mut self, id: LayerId) -> (r: Option<(L, bool)>)
        requires
            old(self).wf(),
        ensures
            final(self).wf(),
            final(self).next_id() == old(self).next_id(),
            forall|x: LayerId| final(self).is_overlay(x) == old(self).is_overlay(x),
            r.is_some() == old(self).contains(id),
            r.is_some() ==> r.unwrap().1 == old(self).is_overlay(id),
            r.is_some() ==> final(self).ids().len() + 1 == old(self).ids().len(),
            forall|x: LayerId| final(self).contains(x) == (old(self).contains(x) && x != id),
            r.is_none() ==> *final(self) == *old(self),
    {
        match self.find_in(0, self.ids.len(), id) {
            Some(index) => {
                let ghost old_ids = self.ids@;
                let ghost old_b = self.layer_insert as int;
                let overlay = index >= self.layer_insert;
                self.ids.remove(index);
                let layer = self.data.remove(index);
                if !overlay {
                    self.layer_insert = self.layer_insert - 1;
                }
                proof {
                    self.lemma_removed(old_ids, old_b, index as int);
                    lemma_remove_contains(old_ids, index as int);
                }
                Some((layer, overlay))
            },
            None => None,
        }
    }

    /// Puts back an entry that `take` took out, at its place among the
    /// entries of its region, which stay ordered by handle.
    pub(crate) fn restore(&mut self, id: LayerId, layer: L, overlay: bool)
        requires
            old(self).wf(),
            !old(self).contains(id),
            1 <= id@ < old(self).next_id(),
            overlay == old(self).is_overlay(id),
            old(self).ids().len() + 1 < old(self).next_id(),
        ensures
            final(self).wf(),
            final(self).next_id() == old(self).next_id(),
            forall|x: LayerId| final(self).is_overlay(x) == old(self).is_overlay(x),
            forall|x: LayerId| final(self).contains(x) == (old(self).contains(x) || x == id),
    {
        let lo = if overlay { self.layer_insert } else { 0 };
        let hi = if overlay { self.ids.len() } else { self.layer_insert };
        let mut p: usize = lo;
        while p < hi && self.ids[p].0 < id.0
            invariant
                self.wf(),
                lo <= p <= hi <= self.ids@.len(),
                lo == (if overlay { self.layer_insert as int } else { 0 }),
                hi == (if overlay { self.ids@.len() as int } else { self.layer_insert as int }),
                forall|i: int| lo <= i < p ==> self.ids@[i]@ < id@,
            decreases hi - p,
        {
            p = p + 1;
        }
        let ghost old_ids = self.ids@;
        let ghost old_b = self.layer_insert as int;
        proof {
            assert forall|i: int| p <= i < hi implies self.ids@[i]@ > id@ by {
                assert(self.ids@[p as int]@ >= id@);
                assert(self.ids@[p as int]@ != id@) by {
                    if self.ids@[p as int]@ == id@ {
                        assert(self.ids@[p as int] == id);
                    }
                }
                if i > p {
                    assert(self.ids@[p as int]@ < self.ids@[i]@);
                }
                assert(self.ids@[i]@ != id@) by {
                    if self.ids@[i]@ == id@ {
                        assert(self.ids@[i] == id);
                    }
                }
            }
        }
        self.ids.insert(p, id);
        self.data.insert(p, layer);
        if !overlay {
            self.layer_insert = self.layer_insert + 1;
        }
        proof {
            self.lemma_inserted(old_ids, old_b, p as int, id);
        }
    }

    /// After a handle absent from a well-formed sequence was inserted at the
    /// place that keeps its region ordered, the stack is well formed again.
    proof fn lemma_inserted(&self, old_ids: Seq<LayerId>, old_b: int, p: int, id: LayerId)
        requires
            self.ids@ == old_ids.insert(p, id),
            self.data@.len() == self.ids@.len(),
            0 <= old_b <= old_ids.len(),
            old_ids.len() + 1 < self.next_layer_id,
            1 <= id@ < self.next_layer_id,
            !old_ids.contains(id),
            distinct_ids(old_ids),
            forall|i: int| 0 <= i < old_ids.len() ==> 1 <= #[trigger] old_ids[i]@ < self.next_layer_id,
            increasing_in(old_ids, 0, old_b),
            increasing_in(old_ids, old_b, old_ids.len() as int),
            forall|i: int| 0 <= i < old_ids.len() ==> (i >= old_b) == self.is_overlay(#[trigger] old_ids[i]),
            self.is_overlay(id) ==> self.layer_insert == old_b && old_b <= p <= old_ids.len()
                && (forall|i: int| old_b <= i < p ==> old_ids[i]@ < id@)
                && (forall|i: int| p <= i < old_ids.len() ==> old_ids[i]@ > id@),
            !self.is_overlay(id) ==> self.layer_insert == old_b + 1 && 0 <= p <= old_b
                && (forall|i: int| 0 <= i < p ==> old_ids[i]@ < id@)
                && (forall|i: int| p <= i < old_b ==> old_ids[i]@ > id@),
        ensures
            self.wf(),
            forall|x: LayerId| self.contains(x) == (old_ids.contains(x) || x == id),
    {
        let s = self.ids@;
        let b = self.layer_insert as int;
        assert forall|i: int| 0 <= i < s.len() implies 1 <= #[trigger] s[i]@ < self.next_layer_id by {
            if i < p {
                assert(s[i] == old_ids[i]);
            } else if i > p {
                assert(s[i] == old_ids[i - 1]);
            }
        }
        assert forall|i: int, j: int| 0 <= i < s.len() && 0 <= j < s.len() && i != j implies s[i]@
            != s[j]@ by {
            if i != p && j != p {
                let oi = if i < p { i } else { i - 1 };
                let oj = if j < p { j } else { j - 1 };
                assert(s[i] == old_ids[oi]);
                assert(s[j] == old_ids[oj]);
            } else if i == p {
                let oj = if j < p { j } else { j - 1 };
                assert(s[j] == old_ids[oj]);
                if old_ids[oj]@ == id@ {
                    assert(old_ids[oj] == id);
                }
            } else {
                let oi = if i < p { i } else { i - 1 };
                assert(s[i] == old_ids[oi]);
                if old_ids[oi]@ == id@ {
                    assert(old_ids[oi] == id);
                }
            }
        }
        assert forall|j: int| 0 <= j < s.len() implies (j >= b) == self.is_overlay(#[trigger] s[j]) by {
            if j < p {
                assert(s[j] == old_ids[j]);
            } else if j > p {
                assert(s[j] == old_ids[j - 1]);
            }
        }
        assert forall|i: int, j: int| 0 <= i < j < b implies s[i]@ < s[j]@ by {
            let oi = if i < p { i } else { i - 1 };
            let oj = if j < p { j } else { j - 1 };
            if i != p {
                assert(s[i] == old_ids[oi]);
            }
            if j != p {
                assert(s[j] == old_ids[oj]);
            }
        }
        assert forall|i: int, j: int| b <= i < j < s.len() implies s[i]@ < s[j]@ by {
            let oi = if i < p { i } else { i - 1 };
            let oj = if j < p { j } else { j - 1 };
            if i != p {
                assert(s[i] == old_ids[oi]);
            }
            if j != p {
                assert(s[j] == old_ids[oj]);
            }
        }
        assert forall|x: LayerId| self.contains(x) == (old_ids.contains(x) || x == id) by {
            if self.contains(x) {
                let j = choose|j: int| 0 <= j < s.len() && s[j] == x;
                if j < p {
                    assert(old_ids[j] == x);
                } else if j > p {
                    assert(old_ids[j - 1] == x);
                }
            }
            if old_ids.contains(x) {
                let j = choose|j: int| 0 <= j < old_ids.len() && old_ids[j] == x;
                if j < p {
                    assert(s[j] == x);
                } else {
                    assert(s[j + 1] == x);
                }
            }
            if x == id {
                assert(s[p as int] == x);
            }
        }
    }

    /// Removes the entry whose handle is `id` from the layer region and hands it
    /// back; `None`, with nothing changed, where the layer region holds no such
    /// entry.
    pub fn pop_layer(&mut self, id: LayerId) -> (r: Option<L>)
        requires
            old(self).wf(),
        ensures
            final(self).wf(),
            final(self).next_id() == old(self).next_id(),
            forall|x: LayerId| final(self).is_overlay(x) == old(self).is_overlay(x),
            match index_in(old(self).ids(), 0, old(self).boundary() as int, id) {
                Some(i) => {
                    &&& r == Some(old(self).layers()[i])
                    &&& final(self).ids() == old(self).ids().remove(i)
                    &&& final(self).layers() == old(self).layers().remove(i)
                    &&& final(self).boundary() == old(self).boundary() - 1
                },
                None => r.is_none() && *final(self) == *old(self),
            },
    {
        match self.find_in(0, self.layer_insert, id) {
            Some(index) => {
                let ghost old_ids = self.ids@;
                let ghost old_b = self.layer_insert as int;
                self.ids.remove(index);
                let layer = self.data.remove(index);
                self.layer_insert = self.layer_insert - 1;
                proof {
                    self.lemma_removed(old_ids, old_b, index as int);
                }
                Some(layer)
            },
            None => None,
        }
    }

    /// Removes the entry whose handle is `id` from the overlay region and hands
    /// it back; `None`, with nothing changed, where the overlay region holds no
    /// such entry.
    pub fn pop_overlay(&mut self, id: LayerId) -> (r: Option<L>)
        requires
            old(self).wf(),
        ensures
            final(self).wf(),
            final(self).next_id() == old(self).next_id(),
            forall|x: LayerId| final(self).is_overlay(x) == old(self).is_overlay(x),
            match index_in(old(self).ids(), old(self).boundary() as int, old(self).ids().len() as int, id) {
                Some(i) => {
                    &&& r == Some(old(self).layers()[i])
                    &&& final(self).ids() == old(self).ids().remove(i)
                    &&& final(self).layers() == old(self).layers().remove(i)
                    &&& final(self).boundary() == old(self).boundary()
                },
                None => r.is_none() && *final(self) == *old(self),
            },
    {
        match self.find_in(self.layer_insert, self.ids.len(), id) {
            Some(index) => {
                let ghost old_ids = self.ids@;
                let ghost old_b = self.layer_insert as int;
                self.ids.remove(index);
                let layer = self.data.remove(index);
                proof {
                    self.lemma_removed(old_ids, old_b, index as int);
                }
                Some(layer)
            },
            None => None,
        }
    }

    /// After one handle was taken out of a well-formed sequence, with the
    /// boundary moved back where the handle stood in front of it, the stack is
    /// well formed again.
    proof fn lemma_removed(&self, old_ids: Seq<LayerId>, old_b: int, index: int)
        requires
            0 <= index < old_ids.len(),
            self.ids@ == old_ids.remove(index),
            self.data@.len() == self.ids@.len(),
            self.layer_insert <= self.ids@.len(),
            old_ids.len() < self.next_layer_id,
            distinct_ids(old_ids),
            forall|i: int| 0 <= i < old_ids.len() ==> 1 <= #[trigger] old_ids[i]@ < self.next_layer_id,
            old_b <= old_ids.len(),
            index < old_b ==> self.layer_insert == old_b - 1,
            index >= old_b ==> self.layer_insert == old_b,
            increasing_in(old_ids, 0, old_b),
            increasing_in(old_ids, old_b, old_ids.len() as int),
            forall|i: int| 0 <= i < old_ids.len() ==> (i >= old_b) == self.is_overlay(#[trigger] old_ids[i]),
        ensures
            self.wf(),
    {
        let s = self.ids@;
        assert forall|i: int| 0 <= i < s.len() implies 1 <= #[trigger] s[i]@ < self.next_layer_id by {
            if i < index {
                assert(s[i] == old_ids[i]);
            } else {
                assert(s[i] == old_ids[i + 1]);
            }
        }
        assert forall|i: int, j: int| 0 <= i < s.len() && 0 <= j < s.len() && i != j implies s[i]@
            != s[j]@ by {
            let oi = if i < index { i } else { i + 1 };
            let oj = if j < index { j } else { j + 1 };
            assert(s[i] == old_ids[oi]);
            assert(s[j] == old_ids[oj]);
        }
        let b = self.layer_insert as int;
        assert forall|j: int| 0 <= j < s.len() implies (j >= b) == self.is_overlay(#[trigger] s[j]) by {
            let oj = if j < index { j } else { j + 1 };
            assert(s[j] == old_ids[oj]);
        }
        assert forall|i: int, j: int| 0 <= i < j < b implies s[i]@ < s[j]@ by {
            let oi = if i < index { i } else { i + 1 };
            let oj = if j < index { j } else { j + 1 };
            assert(s[i] == old_ids[oi]);
            assert(s[j] == old_ids[oj]);
        }
        assert forall|i: int, j: int| b <= i < j < s.len() implies s[i]@ < s[j]@ by {
            let oi = if i < index { i } else { i + 1 };
            let oj = if j < index { j } else { j + 1 };
            assert(s[i] == old_ids[oi]);
            assert(s[j] == old_ids[oj]);
        }
    }
}

} // verus!
