pub mod find_cycles;
pub mod int_map;
pub mod relation;
pub mod transistor;

pub use relation::Relation;

use vstd::prelude::*;
use vstd::string::StringExecFns;
use crate::error::Error;
use crate::error::ErrorGroup;
use crate::error::ErrorTree;
use crate::globals::Polarity;
use crate::order::find_cycles::all_strict;
use crate::order::find_cycles::has_cycle;
use crate::order::find_cycles::is_strict_cycle;
use crate::order::find_cycles::is_walk;
use crate::order::find_cycles::positions;
use crate::order::find_cycles::step;
use crate::order::find_cycles::strict_loop;
use crate::scope::leaf;
use crate::scope::Scope;
use crate::index_vec::Idx;
use crate::index_vec::IndexVec;
use crate::order::int_map::rels_clone;
use crate::order::int_map::rels_entries;
use crate::order::int_map::rels_get;
use crate::order::int_map::rels_insert;
use crate::order::int_map::rels_new;
use crate::order::int_map::Rels;

verus! {

/// The mathematical content of an order: for each element, by position, the
/// relations that it has to other elements, keyed by their position.
pub type Rows = Seq<Map<usize, Relation>>;

/// The relation stored from `a` to `b`, if there is one.
pub open spec fn edge(rows: Rows, a: usize, b: usize) -> Option<Relation> {
    if a < rows.len() && rows[a as int].contains_key(b) {
        Some(rows[a as int][b])
    } else {
        None
    }
}

/// The forward part of the relation stored from `a` to `b`: `LT` or `LE` where
/// the order says that `a` is below `b`.
pub open spec fn forward_edge(rows: Rows, a: usize, b: usize) -> Option<Relation> {
    match edge(rows, a, b) {
        Some(rel) => rel.lte_component(),
        None => None,
    }
}

/// Symmetric storage: a relation stored from `a` to `b` is stored reversed from
/// `b` to `a`, and both ends are elements of the order. No element is stored as
/// equal to itself.
pub open spec fn rows_wf(rows: Rows) -> bool {
    forall|a: usize, b: usize|
        a < rows.len() && #[trigger] rows[a as int].contains_key(b) ==> {
            &&& b < rows.len()
            &&& rows[b as int].contains_key(a)
            &&& rows[b as int][a] == rows[a as int][b].rev()
            &&& a == b ==> !rows[a as int][b].permits_eq()
        }
}

/// The relation stored for a pair after `rel` has been conjoined to what was
/// stored, if anything was.
pub open spec fn conjoined(stored: Option<Relation>, rel: Relation) -> Relation {
    match stored {
        Some(has) => has.conj(rel),
        None => rel,
    }
}

/// What is stored for each pair after `a rel b` has been recorded, unless it is
/// `a ≤ a`, which is not recorded.
pub proof fn lemma_related_edges(rows: Rows, a: usize, b: usize, rel: Relation)
    requires
        rows_wf(rows),
        a < usize::MAX,
        b < usize::MAX,
        !(a == b && rel.permits_eq()),
    ensures
        forall|x: usize, y: usize|
            #![trigger edge(related(rows, a, b, rel), x, y)]
            edge(related(rows, a, b, rel), x, y) == (if x == a && y == b && a == b {
                Some(conjoined(edge(rows, a, a), rel).conj(rel.rev()))
            } else if x == a && y == b {
                Some(conjoined(edge(rows, a, b), rel))
            } else if x == b && y == a {
                Some(conjoined(edge(rows, b, a), rel.rev()))
            } else {
                edge(rows, x, y)
            }),
{
}

/// The row of `a`, empty beyond the end.
pub open spec fn row_or_empty(rows: Rows, a: int) -> Map<usize, Relation> {
    if 0 <= a < rows.len() {
        rows[a]
    } else {
        Map::empty()
    }
}

/// The rows extended with empty rows to a length of at least `n`.
pub open spec fn grown(rows: Rows, n: nat) -> Rows {
    Seq::new(if rows.len() < n { n } else { rows.len() }, |i: int| row_or_empty(rows, i))
}

/// The rows after `rel` has been conjoined to what is stored from `a` to `b`,
/// in that direction only.
pub open spec fn tightened(rows: Rows, a: usize, b: usize, rel: Relation) -> Rows {
    let g = grown(rows, (a + 1) as nat);
    let row = g[a as int];
    let stored = if row.contains_key(b) { row[b].conj(rel) } else { rel };
    g.update(a as int, row.insert(b, stored))
}

/// The rows after `a rel b` has been recorded: nothing changes for `a ≤ a`;
/// otherwise both directions are tightened.
pub open spec fn related(rows: Rows, a: usize, b: usize, rel: Relation) -> Rows {
    if a == b && rel.permits_eq() {
        rows
    } else {
        tightened(tightened(rows, a, b, rel), b, a, rel.rev())
    }
}

/// Recording a relation keeps the storage symmetric.
pub proof fn lemma_related_wf(rows: Rows, a: usize, b: usize, rel: Relation)
    requires
        rows_wf(rows),
        a < usize::MAX,
        b < usize::MAX,
    ensures
        rows_wf(related(rows, a, b, rel)),
{
    let t = tightened(rows, a, b, rel);
    let r = related(rows, a, b, rel);
    if !(a == b && rel.permits_eq()) {
        assert forall|x: usize, y: usize|
            x < r.len() && #[trigger] r[x as int].contains_key(y) implies y < r.len()
            && r[y as int].contains_key(x) && r[y as int][x] == r[x as int][y].rev() by {
            if x < rows.len() && rows[x as int].contains_key(y) {
                assert(rows[y as int].contains_key(x));
            }
            if y < rows.len() && rows[y as int].contains_key(x) {
                assert(rows[x as int].contains_key(y));
            }
        }
    }
}

/// After `a rel b` has been recorded, what is stored from `b` to `a` is the
/// reverse of what is stored from `a` to `b`; recording `a ≤ a` changes nothing.
pub proof fn lemma_related_symmetric(rows: Rows, a: usize, b: usize, rel: Relation)
    requires
        rows_wf(rows),
        a < usize::MAX,
        b < usize::MAX,
    ensures
        a == b && rel.permits_eq() ==> related(rows, a, b, rel) == rows,
        !(a == b && rel.permits_eq()) ==> {
            &&& edge(related(rows, a, b, rel), a, b) is Some
            &&& edge(related(rows, a, b, rel), b, a) == Some(
                edge(related(rows, a, b, rel), a, b)->0.rev(),
            )
        },
{
    lemma_related_wf(rows, a, b, rel);
    let r = related(rows, a, b, rel);
    if !(a == b && rel.permits_eq()) {
        assert(r[b as int].contains_key(a));
    }
}

/// Whether `list` holds every stored relation once, each with the indices of its
/// two elements.
pub open spec fn lists_edges<I: Idx>(rows: Rows, list: Seq<(I, I, Relation)>) -> bool {
    &&& forall|k: int|
        0 <= k < list.len() ==> edge(rows, (#[trigger] list[k]).0.index(), list[k].1.index())
            == Some(list[k].2)
    &&& forall|a: usize, b: usize|
        a < rows.len() && #[trigger] rows[a as int].contains_key(b) ==> exists|k: int|
            0 <= k < list.len() && (#[trigger] list[k]).0.index() == a && list[k].1.index() == b
    &&& forall|i: int, j: int|
        0 <= i < j < list.len() ==> !((#[trigger] list[i]).0.index() == (#[trigger] list[j]).0.index()
            && list[i].1.index() == list[j].1.index())
}

/// Whether `list` holds the forward component of every stored relation that has
/// one, once, each with the indices of its two elements.
pub open spec fn lists_forward_edges<I: Idx>(rows: Rows, list: Seq<(I, I, Relation)>) -> bool {
    &&& forall|k: int|
        0 <= k < list.len() ==> forward_edge(
            rows,
            (#[trigger] list[k]).0.index(),
            list[k].1.index(),
        ) == Some(list[k].2)
    &&& forall|a: usize, b: usize|
        a < rows.len() && #[trigger] rows[a as int].contains_key(b) && rows[a as int][b].lte_component() is Some
            ==> exists|k: int|
            0 <= k < list.len() && (#[trigger] list[k]).0.index() == a && list[k].1.index() == b
    &&& forall|i: int, j: int|
        0 <= i < j < list.len() ==> !((#[trigger] list[i]).0.index() == (#[trigger] list[j]).0.index()
            && list[i].1.index() == list[j].1.index())
}

/// What is stored for a pair after the relations of `from` have been
/// recorded, with every position moved up by `base`.
pub open spec fn imported_edge(target: Rows, from: Rows, base: usize, x: usize, y: usize) -> Option<
    Relation,
> {
    let brought = if x >= base && y >= base {
        edge(from, (x - base) as usize, (y - base) as usize)
    } else {
        None
    };
    match brought {
        Some(rel) => Some(conjoined(edge(target, x, y), rel)),
        None => edge(target, x, y),
    }
}

/// What the search for cycles may give for an order, as errors: none for an
/// order without cycle, at least one for an order with a cycle, each error
/// the line of a cycle of the order, and for every element that lies on a
/// cycle the line of a cycle through it.
pub open spec fn coherent_outcome(rows: Rows, names: Seq<Seq<char>>, errors: Seq<ErrorTree>) -> bool {
    &&& errors.len() == 0 <==> !has_cycle(rows)
    &&& forall|x: usize|
        crate::order::find_cycles::on_cycle(rows, x) ==> exists|k: int, cycle: Seq<usize>|
            0 <= k < errors.len() && is_strict_cycle(rows, cycle) && cycle.contains(x)
                && #[trigger] errors[k] == leaf(#[trigger] walk_text(rows, names, cycle))
    &&& forall|k: int|
        0 <= k < errors.len() ==> exists|cycle: Seq<usize>|
            is_strict_cycle(rows, cycle) && #[trigger] errors[k] == leaf(
                walk_text(rows, names, cycle),
            )
}

/// What the list of the forward relations of an order may be, as errors: one
/// line for each, in some order.
pub open spec fn lines_outcome<I: Idx>(
    rows: Rows,
    names: Seq<Seq<char>>,
    errors: Seq<ErrorTree>,
) -> bool {
    &&& errors.len() == 0 <==> forall|a: usize, b: usize| forward_edge(rows, a, b) is None
    &&& exists|list: Seq<(I, I, Relation)>|
        #![trigger lists_forward_edges(rows, list)]
        lists_forward_edges(rows, list) && errors.len() == list.len() && forall|k: int|
            0 <= k < list.len() ==> #[trigger] errors[k] == leaf(
                edge_text(names, list[k].0.index(), list[k].2, list[k].1.index()),
            )
}

/// Whether two orders store the same for every pair.
pub open spec fn same_edges(a: Rows, b: Rows) -> bool {
    forall|x: usize, y: usize|
        #![trigger edge(a, x, y)]
        #![trigger edge(b, x, y)]
        edge(a, x, y) == edge(b, x, y)
}

/// Rows that store, for every pair, what the rows `target` store after the
/// relations of `from` have been recorded, with every position moved up by
/// `base`.
pub open spec fn imported_rows(target: Rows, from: Rows, base: usize) -> Rows {
    Seq::new(
        if target.len() < base + from.len() {
            (base + from.len()) as nat
        } else {
            target.len()
        },
        |x: int|
            Map::new(
                |y: usize| imported_edge(target, from, base, x as usize, y) is Some,
                |y: usize| imported_edge(target, from, base, x as usize, y)->0,
            ),
    )
}

/// `imported_rows` stores what `imported_edge` says, and depends on `target`
/// only by what it stores.
pub proof fn lemma_imported_rows(target: Rows, like: Rows, from: Rows, base: usize)
    requires
        target.len() <= usize::MAX,
        base + from.len() <= usize::MAX,
        same_edges(like, target),
    ensures
        forall|x: usize, y: usize|
            #![trigger edge(imported_rows(target, from, base), x, y)]
            edge(imported_rows(target, from, base), x, y) == imported_edge(like, from, base, x, y),
{
    let rows = imported_rows(target, from, base);
    assert forall|x: usize, y: usize| #![trigger edge(rows, x, y)]
        edge(rows, x, y) == imported_edge(like, from, base, x, y) by {
        assert(edge(like, x, y) == edge(target, x, y));
        assert(imported_edge(like, from, base, x, y) == imported_edge(target, from, base, x, y));
        if x < rows.len() {
            assert((x as int) as usize == x);
        }
    }
}

/// The line that says that `a` stands in `rel` to `b`.
pub open spec fn edge_text(names: Seq<Seq<char>>, a: usize, rel: Relation, b: usize) -> Seq<char> {
    names[a as int] + " "@ + rel.symbol_spec() + " "@ + names[b as int]
}

/// The line that shows a walk: the names of its elements, with the forward
/// relation of each step between them.
pub open spec fn walk_text(rows: Rows, names: Seq<Seq<char>>, walk: Seq<usize>) -> Seq<char>
    decreases walk.len(),
{
    if walk.len() == 0 {
        Seq::empty()
    } else if walk.len() == 1 {
        names[walk[0] as int]
    } else {
        walk_text(rows, names, walk.drop_last()) + " "@ + forward_edge(
            rows,
            walk[walk.len() - 2],
            walk.last(),
        )->0.symbol_spec() + " "@ + names[walk.last() as int]
    }
}

/// The rows after every relation of `edges` has been recorded, in order.
pub open spec fn related_all<I: Idx>(rows: Rows, edges: Seq<(I, I, Relation)>) -> Rows
    decreases edges.len(),
{
    if edges.len() == 0 {
        rows
    } else {
        related(
            related_all(rows, edges.drop_last()),
            edges.last().0.index(),
            edges.last().1.index(),
            edges.last().2,
        )
    }
}

/// Recording one more relation after a list of relations.
pub proof fn lemma_related_all_push<I: Idx>(
    rows: Rows,
    edges: Seq<(I, I, Relation)>,
    last: (I, I, Relation),
)
    ensures
        related_all(rows, edges.push(last)) == related(
            related_all(rows, edges),
            last.0.index(),
            last.1.index(),
            last.2,
        ),
{
    assert(edges.push(last).drop_last() =~= edges);
}

/// After the relations of a list have been recorded, what is stored for the
/// pair of each of them is at least as tight as the relation.
pub proof fn lemma_related_all_holds<I: Idx>(rows: Rows, edges: Seq<(I, I, Relation)>, k: int)
    requires
        0 <= k < edges.len(),
        forall|j: int|
            0 <= j < edges.len() ==> (#[trigger] edges[j]).0.index() < usize::MAX
                && edges[j].1.index() < usize::MAX,
        !(edges[k].0.index() == edges[k].1.index() && edges[k].2.permits_eq()),
    ensures
        edge(related_all(rows, edges), edges[k].0.index(), edges[k].1.index()) matches Some(has)
            && has.implies(edges[k].2),
    decreases edges.len(),
{
    let before = related_all(rows, edges.drop_last());
    let last = edges.last();
    crate::order::transistor::lemma_related_tightens(
        before,
        last.0.index(),
        last.1.index(),
        last.2,
    );
    if k < edges.len() - 1 {
        assert(edges.drop_last()[k] == edges[k]);
        assert forall|j: int| 0 <= j < edges.drop_last().len() implies (
        #[trigger] edges.drop_last()[j]).0.index() < usize::MAX && edges.drop_last()[j].1.index()
            < usize::MAX by {
            assert(edges.drop_last()[j] == edges[j]);
        }
        lemma_related_all_holds(rows, edges.drop_last(), k);
        let a = edges[k].0.index();
        let b = edges[k].1.index();
        assert(before[a as int].contains_key(b));
    }
}

/// Recording a strict relation in an order whose forward relations are all
/// strict leaves all forward relations strict.
pub proof fn lemma_related_strict(rows: Rows, a: usize, b: usize, rel: Relation)
    requires
        rows_wf(rows),
        all_strict(rows),
        a < usize::MAX,
        b < usize::MAX,
        !rel.permits_eq(),
    ensures
        all_strict(related(rows, a, b, rel)),
{
    lemma_related_edges(rows, a, b, rel);
    let after = related(rows, a, b, rel);
    assert forall|x: usize, y: usize| #![trigger forward_edge(after, x, y)]
        forward_edge(after, x, y) is Some implies forward_edge(after, x, y) == Some(
        Relation::LT,
    ) by {
        assert(edge(after, x, y) is Some);
        if !((x == a && y == b) || (x == b && y == a)) {
            assert(edge(after, x, y) == edge(rows, x, y));
            assert(forward_edge(rows, x, y) is Some);
        }
    }
}

/// What the relations of one element hold.
pub struct Element {
    rels: Rels,
}

impl View for Element {
    type V = Map<usize, Relation>;

    closed spec fn view(&self) -> Map<usize, Relation> {
        self.rels@
    }
}

impl Default for Element {
    fn default() -> (r: Self)
        ensures
            r@ == Map::<usize, Relation>::empty(),
    {
        Element { rels: rels_new() }
    }
}

impl Clone for Element {
    fn clone(&self) -> (r: Self)
        ensures
            r@ == self@,
    {
        Element { rels: rels_clone(&self.rels) }
    }
}

impl Element {
    /// The relation to the element at position `b`, if one is stored.
    pub fn get(&self, b: usize) -> (r: Option<Relation>)
        ensures
            r == (if self@.contains_key(b) {
                Some(self@[b])
            } else {
                None
            }),
    {
        rels_get(&self.rels, b)
    }

    /// Every stored relation once, with the position of the other element, in an
    /// order that the map chooses.
    pub fn entries(&self) -> (r: Vec<(usize, Relation)>)
        ensures
            forall|i: int| 0 <= i < r@.len() ==> self@.contains_pair((#[trigger] r@[i]).0, r@[i].1),
            forall|k: usize|
                self@.contains_key(k) ==> exists|i: int|
                    0 <= i < r@.len() && (#[trigger] r@[i]).0 == k,
            forall|i: int, j: int|
                0 <= i < j < r@.len() ==> (#[trigger] r@[i]).0 != (#[trigger] r@[j]).0,
    {
        rels_entries(&self.rels)
    }

    /// Conjoins `rel` to what is stored for `b`.
    fn tighten(&mut self, b: usize, rel: Relation)
        ensures
            final(self)@ == old(self)@.insert(
                b,
                if old(self)@.contains_key(b) {
                    old(self)@[b].conj(rel)
                } else {
                    rel
                },
            ),
    {
        let stored = match rels_get(&self.rels, b) {
            Some(has) => has.conj(rel),
            None => rel,
        };
        rels_insert(&mut self.rels, b, stored);
    }
}

/// A directed constraint graph over the elements that the indices of `I` name.
///
/// Every relation is stored in both directions: from `a` to `b` as recorded,
/// and from `b` to `a` reversed. Relations recorded for the same pair are
/// conjoined.
pub struct Order<I: Idx> {
    els: IndexVec<I, Element>,
}

impl<I: Idx> View for Order<I> {
    type V = Rows;

    closed spec fn view(&self) -> Rows {
        Seq::new(self.els@.len(), |i: int| self.els@[i]@)
    }
}

impl<I: Idx> Default for Order<I> {
    fn default() -> (r: Self)
        ensures
            r@ == Seq::<Map<usize, Relation>>::empty(),
            r.wf(),
    {
        let r = Order { els: IndexVec::new() };
        assert(r@ =~= Seq::<Map<usize, Relation>>::empty());
        r
    }
}

impl<I: Idx> Clone for Order<I> {
    fn clone(&self) -> (r: Self)
        ensures
            r@ == self@,
    {
        let mut els: IndexVec<I, Element> = IndexVec::new();
        let n = self.els.count();
        let mut i: usize = 0;
        while i < n
            invariant
                n == self.els@.len(),
                i <= n,
                els@.len() == i,
                forall|j: int| 0 <= j < i ==> (#[trigger] els@[j])@ == self.els@[j]@,
            decreases n - i,
        {
            let el = self.els.at(I::from_usize(i)).clone();
            els.push(el);
            i += 1;
        }
        let r = Order { els };
        assert(r@ =~= self@);
        r
    }
}

impl<I: Idx> Order<I> {
    /// The validity of an order: its storage is symmetric.
    pub open spec fn wf(&self) -> bool {
        rows_wf(self@)
    }

    /// The relation stored from `a` to `b`, if there is one.
    pub open spec fn spec_edge(&self, a: I, b: I) -> Option<Relation> {
        edge(self@, a.index(), b.index())
    }

    /// The number of elements fits the machine.
    pub proof fn lemma_len_fits(&self)
        ensures
            self@.len() <= usize::MAX,
    {
        self.els.lemma_count_fits();
    }

    /// An order without elements.
    pub fn new() -> (r: Self)
        ensures
            r@ == Seq::<Map<usize, Relation>>::empty(),
            r.wf(),
    {
        let r = Order { els: IndexVec::new() };
        assert(r@ =~= Seq::<Map<usize, Relation>>::empty());
        r
    }

    /// The number of elements: one more than the largest position that a
    /// relation has been recorded for.
    pub fn len(&self) -> (n: usize)
        ensures
            n == self@.len(),
    {
        self.els.count()
    }

    /// The relations of the element at position `a`, which must exist.
    pub fn element(&self, a: usize) -> (el: &Element)
        requires
            a < self@.len(),
        ensures
            el@ == self@[a as int],
    {
        self.els.at(I::from_usize(a))
    }

    /// The relation stored from `a` to `b`, if there is one.
    pub fn get(&self, a: I, b: I) -> (r: Option<Relation>)
        ensures
            r == self.spec_edge(a, b),
    {
        match self.els.get(a) {
            Some(el) => el.get(b.to_usize()),
            None => None,
        }
    }

    /// Conjoins `rel` to what is stored from `a` to `b`, in that direction only.
    fn tighten(&mut self, a: I, b: I, rel: Relation)
        requires
            a.index() < usize::MAX,
        ensures
            final(self)@ == tightened(old(self)@, a.index(), b.index(), rel),
    {
        let ghost before = self.els@;
        let el = self.els.get_or_extend(a);
        el.tighten(b.to_usize(), rel);
        assert(self@ =~= tightened(old(self)@, a.index(), b.index(), rel));
    }

    /// Records `a rel b`. The relation is conjoined with what is stored for the
    /// pair, in both directions; `a ≤ a` is not recorded.
    pub fn relate(&mut self, a: I, b: I, rel: Relation)
        requires
            old(self).wf(),
            !(a.index() == b.index() && rel.permits_eq()) ==> a.index() < usize::MAX && b.index()
                < usize::MAX,
        ensures
            final(self).wf(),
            final(self)@ == related(old(self)@, a.index(), b.index(), rel),
            a.index() == b.index() && rel.permits_eq() ==> final(self)@ == old(self)@,
            !(a.index() == b.index() && rel.permits_eq()) ==> final(self).spec_edge(b, a) == Some(
                final(self).spec_edge(a, b)->0.rev(),
            ),
    {
        proof {
            if !(a.index() == b.index() && rel.permits_eq()) {
                lemma_related_wf(old(self)@, a.index(), b.index(), rel);
                lemma_related_symmetric(old(self)@, a.index(), b.index(), rel);
            }
        }
        if !(a.to_usize() == b.to_usize() && rel.allows_equal()) {
            self.tighten(a, b, rel);
            self.tighten(b, a, rel.rev());
        }
    }

    /// Records every relation of `edges`, in order.
    pub fn extend(&mut self, edges: Vec<(I, I, Relation)>)
        requires
            old(self).wf(),
            forall|k: int|
                0 <= k < edges@.len() ==> (#[trigger] edges@[k]).0.index() < usize::MAX
                    && edges@[k].1.index() < usize::MAX,
        ensures
            final(self).wf(),
            final(self)@ == related_all(old(self)@, edges@),
    {
        let mut i: usize = 0;
        assert(edges@.subrange(0, 0) =~= Seq::<(I, I, Relation)>::empty());
        while i < edges.len()
            invariant
                self.wf(),
                i <= edges@.len(),
                forall|k: int|
                    0 <= k < edges@.len() ==> (#[trigger] edges@[k]).0.index() < usize::MAX
                        && edges@[k].1.index() < usize::MAX,
                self@ == related_all(old(self)@, edges@.subrange(0, i as int)),
            decreases edges@.len() - i,
        {
            let (a, b, rel) = edges[i];
            proof {
                let upto = edges@.subrange(0, i + 1);
                assert(upto.drop_last() =~= edges@.subrange(0, i as int));
                assert(upto.last() == edges@[i as int]);
            }
            self.relate(a, b, rel);
            i += 1;
        }
        assert(edges@.subrange(0, i as int) =~= edges@);
    }

    /// The order that holds the relations of `edges`, recorded in order.
    pub fn from_iter(edges: Vec<(I, I, Relation)>) -> (r: Self)
        requires
            forall|k: int|
                0 <= k < edges@.len() ==> (#[trigger] edges@[k]).0.index() < usize::MAX
                    && edges@[k].1.index() < usize::MAX,
        ensures
            r.wf(),
            r@ == related_all(Seq::<Map<usize, Relation>>::empty(), edges@),
    {
        let mut order = Order::new();
        order.extend(edges);
        order
    }

    /// Records `a rel b` under a polarity: as it stands under `Pos`, reversed
    /// under `Neg`.
    pub fn relate_polarity(&mut self, a: I, b: I, rel: Relation, polarity: Polarity)
        requires
            old(self).wf(),
            !(a.index() == b.index() && rel.permits_eq()) ==> a.index() < usize::MAX && b.index()
                < usize::MAX,
        ensures
            final(self).wf(),
            final(self)@ == related(old(self)@, a.index(), b.index(), rel.twist(polarity)),
    {
        self.relate(
            a,
            b,
            match polarity {
                Polarity::Pos => rel,
                Polarity::Neg => rel.rev(),
            },
        )
    }

    /// Whether the order stores, from `a` to `b`, a relation at least as tight as
    /// `rel`.
    pub fn has(&self, a: I, b: I, rel: Relation) -> (r: bool)
        ensures
            r == (self.spec_edge(a, b) matches Some(has_rel) && has_rel.implies(rel)),
    {
        match self.get(a, b) {
            Some(has_rel) => has_rel.conj(rel) == has_rel,
            None => false,
        }
    }

    /// Every stored relation once, with the indices of its two elements: the
    /// elements in order, the relations of one element in an order that its map
    /// chooses.
    pub fn iter(&self) -> (list: Vec<(I, I, Relation)>)
        requires
            self.wf(),
        ensures
            lists_edges(self@, list@),
    {
        let ghost rows = self@;
        let mut list: Vec<(I, I, Relation)> = Vec::new();
        let n = self.len();
        let mut a: usize = 0;
        while a < n
            invariant
                a <= n,
                n == rows.len(),
                rows == self@,
                forall|k: int|
                    0 <= k < list@.len() ==> (#[trigger] list@[k]).0.index() < a && edge(
                        rows,
                        list@[k].0.index(),
                        list@[k].1.index(),
                    ) == Some(list@[k].2),
                forall|x: usize, y: usize|
                    x < a && #[trigger] rows[x as int].contains_key(y) ==> exists|k: int|
                        0 <= k < list@.len() && (#[trigger] list@[k]).0.index() == x
                            && list@[k].1.index() == y,
                forall|i: int, j: int|
                    0 <= i < j < list@.len() ==> !((#[trigger] list@[i]).0.index() == (
                    #[trigger] list@[j]).0.index() && list@[i].1.index() == list@[j].1.index()),
            decreases n - a,
        {
            let entries = self.element(a).entries();
            let ghost start = list@;
            let mut i: usize = 0;
            while i < entries.len()
                invariant
                    a < n,
                    n == rows.len(),
                    i <= entries@.len(),
                    forall|j: int|
                        0 <= j < entries@.len() ==> rows[a as int].contains_pair(
                            (#[trigger] entries@[j]).0,
                            entries@[j].1,
                        ),
                    forall|p: int, q: int|
                        0 <= p < q < entries@.len() ==> (#[trigger] entries@[p]).0 != (
                        #[trigger] entries@[q]).0,
                    list@.len() == start.len() + i,
                    forall|k: int| 0 <= k < start.len() ==> list@[k] == start[k],
                    forall|k: int| 0 <= k < start.len() ==> (#[trigger] start[k]).0.index() < a,
                    forall|j: int|
                        0 <= j < i ==> (#[trigger] list@[start.len() + j]).0.index() == a
                            && list@[start.len() + j].1.index() == entries@[j].0
                            && list@[start.len() + j].2 == entries@[j].1,
                decreases entries@.len() - i,
            {
                let (b, rel) = entries[i];
                list.push((I::from_usize(a), I::from_usize(b), rel));
                i += 1;
            }
            proof {
                assert forall|k: int| 0 <= k < list@.len() implies (#[trigger] list@[k]).0.index() < a
                    + 1 && edge(rows, list@[k].0.index(), list@[k].1.index()) == Some(
                    list@[k].2,
                ) by {
                    if k >= start.len() {
                        let j = k - start.len();
                        assert(list@[start.len() + j].0.index() == a);
                        assert(rows[a as int].contains_pair(entries@[j].0, entries@[j].1));
                    } else {
                        assert(list@[k] == start[k]);
                    }
                }
                assert forall|x: usize, y: usize|
                    x < a + 1 && #[trigger] rows[x as int].contains_key(y) implies exists|k: int|
                    0 <= k < list@.len() && (#[trigger] list@[k]).0.index() == x
                        && list@[k].1.index() == y by {
                    if x < a {
                        let k = choose|k: int|
                            0 <= k < start.len() && (#[trigger] start[k]).0.index() == x
                                && start[k].1.index() == y;
                        assert(list@[k] == start[k]);
                    } else {
                        let j = choose|j: int| 0 <= j < entries@.len() && (#[trigger] entries@[j]).0 == y;
                        assert(list@[start.len() + j].0.index() == a);
                    }
                }
                assert forall|i: int, j: int| 0 <= i < j < list@.len() implies !((
                #[trigger] list@[i]).0.index() == (#[trigger] list@[j]).0.index()
                    && list@[i].1.index() == list@[j].1.index()) by {
                    if j < start.len() {
                        assert(list@[i] == start[i]);
                        assert(list@[j] == start[j]);
                    } else if i < start.len() {
                        assert(list@[i] == start[i]);
                        assert(start[i].0.index() < a);
                        assert(list@[start.len() + (j - start.len())].0.index() == a);
                    } else {
                        let p = i - start.len();
                        let q = j - start.len();
                        assert(list@[start.len() + p].1.index() == entries@[p].0);
                        assert(list@[start.len() + q].1.index() == entries@[q].0);
                    }
                }
            }
            a += 1;
        }
        list
    }

    /// The forward component of every stored relation that has one, with the
    /// indices of its two elements, in the order of `iter`.
    pub fn iter_forward(&self) -> (list: Vec<(I, I, Relation)>)
        requires
            self.wf(),
        ensures
            lists_forward_edges(self@, list@),
    {
        let ghost rows = self@;
        let all = self.iter();
        let mut list: Vec<(I, I, Relation)> = Vec::new();
        let ghost mut origin: Seq<int> = Seq::empty();
        let mut i: usize = 0;
        while i < all.len()
            invariant
                lists_edges(rows, all@),
                i <= all@.len(),
                origin.len() == list@.len(),
                forall|k: int|
                    0 <= k < list@.len() ==> 0 <= (#[trigger] origin[k]) < i && list@[k].0
                        == all@[origin[k]].0 && list@[k].1 == all@[origin[k]].1 && Some(list@[k].2)
                        == all@[origin[k]].2.lte_component(),
                forall|k: int, m: int| 0 <= k < m < list@.len() ==> origin[k] < origin[m],
                forall|j: int|
                    0 <= j < i && (#[trigger] all@[j]).2.lte_component() is Some ==> exists|k: int|
                        0 <= k < list@.len() && #[trigger] origin[k] == j,
            decreases all@.len() - i,
        {
            let (a, b, rel) = all[i];
            if let Some(fwd) = rel.lte_component() {
                let ghost before = origin;
                list.push((a, b, fwd));
                proof {
                    origin = origin.push(i as int);
                    assert forall|j: int|
                        0 <= j < i + 1 && (#[trigger] all@[j]).2.lte_component() is Some implies exists|
                        k: int,
                    |
                        0 <= k < list@.len() && #[trigger] origin[k] == j by {
                        if j < i {
                            let k = choose|k: int| 0 <= k < before.len() && #[trigger] before[k] == j;
                            assert(origin[k] == j);
                        } else {
                            assert(origin[list@.len() - 1] == j);
                        }
                    }
                }
            }
            i += 1;
        }
        proof {
            assert forall|k: int| 0 <= k < list@.len() implies forward_edge(
                rows,
                (#[trigger] list@[k]).0.index(),
                list@[k].1.index(),
            ) == Some(list@[k].2) by {
                let j = origin[k];
                assert(edge(rows, all@[j].0.index(), all@[j].1.index()) == Some(all@[j].2));
            }
            assert forall|a: usize, b: usize|
                a < rows.len() && #[trigger] rows[a as int].contains_key(b)
                    && rows[a as int][b].lte_component() is Some implies exists|k: int|
                0 <= k < list@.len() && (#[trigger] list@[k]).0.index() == a && list@[k].1.index()
                    == b by {
                let j = choose|j: int|
                    0 <= j < all@.len() && (#[trigger] all@[j]).0.index() == a && all@[j].1.index()
                        == b;
                assert(edge(rows, all@[j].0.index(), all@[j].1.index()) == Some(all@[j].2));
                let k = choose|k: int| 0 <= k < list@.len() && #[trigger] origin[k] == j;
                assert(list@[k].0 == all@[origin[k]].0);
            }
            assert forall|i: int, j: int| 0 <= i < j < list@.len() implies !((
            #[trigger] list@[i]).0.index() == (#[trigger] list@[j]).0.index() && list@[i].1.index()
                == list@[j].1.index()) by {
                assert(origin[i] < origin[j]);
                assert(list@[i].0 == all@[origin[i]].0);
                assert(list@[j].0 == all@[origin[j]].0);
            }
        }
        list
    }

    /// Records the relations that `from` stores, with every position moved up
    /// by `base`: each is conjoined to what the order stores for the pair. An
    /// element that `from` puts strictly below itself is strictly below itself
    /// afterwards.
    pub fn import<J: Idx>(&mut self, from: &Order<J>, base: usize)
        requires
            old(self).wf(),
            from.wf(),
            base + from@.len() <= usize::MAX,
        ensures
            final(self).wf(),
            old(self)@.len() <= final(self)@.len(),
            final(self)@.len() <= old(self)@.len() || final(self)@.len() <= base + from@.len(),
            forall|x: usize, y: usize|
                #![trigger edge(final(self)@, x, y)]
                edge(final(self)@, x, y) == imported_edge(old(self)@, from@, base, x, y),
    {
        let ghost target = self@;
        let ghost source = from@;
        let list = from.iter();
        let ghost mut done: Set<(usize, usize)> = Set::empty();
        let mut i: usize = 0;
        while i < list.len()
            invariant
                self.wf(),
                rows_wf(source),
                rows_wf(target),
                lists_edges(source, list@),
                base + source.len() <= usize::MAX,
                i <= list@.len(),
                target.len() <= self@.len(),
                self@.len() <= target.len() || self@.len() <= base + source.len(),
                forall|p: usize, q: usize|
                    #[trigger] done.contains((p, q)) ==> edge(source, p, q) is Some
                        && done.contains((q, p)),
                forall|k: int|
                    0 <= k < i && (#[trigger] list@[k]).0.index() <= list@[k].1.index()
                        ==> done.contains((list@[k].0.index(), list@[k].1.index())),
                forall|x: usize, y: usize|
                    #![trigger edge(self@, x, y)]
                    edge(self@, x, y) == (if x >= base && y >= base && done.contains(
                        ((x - base) as usize, (y - base) as usize),
                    ) {
                        Some(
                            conjoined(
                                edge(target, x, y),
                                edge(source, (x - base) as usize, (y - base) as usize)->0,
                            ),
                        )
                    } else {
                        edge(target, x, y)
                    }),
            decreases list@.len() - i,
        {
            let (a, b, rel) = list[i];
            let p = a.to_usize();
            let q = b.to_usize();
            assert(edge(source, list@[i as int].0.index(), list@[i as int].1.index()) == Some(rel));
            assert(source[p as int].contains_key(q));
            if p <= q {
                let ghost before = self@;
                let ghost done_before = done;
                proof {
                    assert(source[p as int][q].rev() == source[q as int][p]);
                    crate::order::relation::lemma_conj_idempotent(rel);
                    if let Some(has) = edge(before, (base + p) as usize, (base + q) as usize) {
                        crate::order::relation::lemma_conj_associative(has, rel, rel);
                    }
                }
                let x = base + p;
                let y = base + q;
                proof {
                    lemma_related_edges(before, x, y, rel);
                    lemma_related_tightens_len(before, x, y, rel);
                    done = done.insert((p, q)).insert((q, p));
                }
                self.relate(I::from_usize(x), I::from_usize(y), rel);
                proof {
                    assert forall|u: usize, w: usize| #![trigger edge(self@, u, w)]
                        edge(self@, u, w) == (if u >= base && w >= base && done.contains(
                            ((u - base) as usize, (w - base) as usize),
                        ) {
                            Some(
                                conjoined(
                                    edge(target, u, w),
                                    edge(source, (u - base) as usize, (w - base) as usize)->0,
                                ),
                            )
                        } else {
                            edge(target, u, w)
                        }) by {
                        assert(edge(self@, u, w) == edge(related(before, x, y, rel), u, w));
                        let e = edge(before, u, w);
                        if u == x && w == y {
                            assert((u - base) as usize == p && (w - base) as usize == q);
                            assert(source[q as int][p] == rel.rev());
                        } else if u == y && w == x {
                            assert((u - base) as usize == q && (w - base) as usize == p);
                            assert(source[q as int][p] == rel.rev());
                        } else {
                            if u >= base && w >= base {
                                let up = (u - base) as usize;
                                let wp = (w - base) as usize;
                                assert(!(up == p && wp == q));
                                assert(!(up == q && wp == p));
                                assert(done.contains((up, wp)) == done_before.contains((up, wp)));
                            }
                        }
                    }
                }
            }
            i += 1;
        }
        proof {
            assert forall|x: usize, y: usize| #![trigger edge(self@, x, y)]
                edge(self@, x, y) == imported_edge(target, source, base, x, y) by {
                if x >= base && y >= base && x != y {
                    let p = (x - base) as usize;
                    let q = (y - base) as usize;
                    if edge(source, p, q) is Some {
                        assert(source[p as int].contains_key(q));
                        assert(source[q as int].contains_key(p));
                        if p <= q {
                            let k = choose|k: int|
                                0 <= k < list@.len() && (#[trigger] list@[k]).0.index() == p
                                    && list@[k].1.index() == q;
                            assert(done.contains((list@[k].0.index(), list@[k].1.index())));
                        } else {
                            let k = choose|k: int|
                                0 <= k < list@.len() && (#[trigger] list@[k]).0.index() == q
                                    && list@[k].1.index() == p;
                            assert(done.contains((list@[k].0.index(), list@[k].1.index())));
                            assert(done.contains((p, q)));
                        }
                    } else {
                        assert(!done.contains((p, q)));
                    }
                }
            }
        }
    }

    /// The order without the elements that `omit` chooses: the relations among
    /// the other elements, as they are stored.
    pub fn without<S: crate::order::transistor::Selector<I>>(&self, omit: &S) -> (r: Order<I>)
        requires
            self.wf(),
            forall|x: usize| x < self@.len() ==> omit.knows(x),
        ensures
            r.wf(),
            r@.len() <= self@.len(),
            forall|x: usize, y: usize|
                #![trigger edge(r@, x, y)]
                edge(r@, x, y) == (if omit.selects(x) || omit.selects(y) {
                    None
                } else {
                    edge(self@, x, y)
                }),
    {
        let ghost source = self@;
        let n = self.len();
        let list = self.iter();
        let mut r: Order<I> = Order::new();
        let ghost mut done: Set<(usize, usize)> = Set::empty();
        let mut i: usize = 0;
        while i < list.len()
            invariant
                r.wf(),
                rows_wf(source),
                lists_edges(source, list@),
                source.len() <= usize::MAX,
                forall|x: usize| x < source.len() ==> omit.knows(x),
                i <= list@.len(),
                r@.len() <= source.len(),
                forall|p: usize, q: usize|
                    #[trigger] done.contains((p, q)) ==> edge(source, p, q) is Some
                        && done.contains((q, p)) && !omit.selects(p) && !omit.selects(q),
                forall|k: int|
                    0 <= k < i && !omit.selects((#[trigger] list@[k]).0.index()) && !omit.selects(
                        list@[k].1.index(),
                    ) ==> done.contains((list@[k].0.index(), list@[k].1.index())),
                forall|x: usize, y: usize|
                    #![trigger edge(r@, x, y)]
                    edge(r@, x, y) == (if done.contains((x, y)) {
                        edge(source, x, y)
                    } else {
                        None
                    }),
            decreases list@.len() - i,
        {
            let (a, b, rel) = list[i];
            let p = a.to_usize();
            let q = b.to_usize();
            assert(edge(source, list@[i as int].0.index(), list@[i as int].1.index()) == Some(rel));
            assert(source[p as int].contains_key(q));
            assert(source[q as int].contains_key(p));
            if !omit.select(a) && !omit.select(b) {
                let ghost before = r@;
                let ghost done_before = done;
                proof {
                    lemma_related_edges(before, p, q, rel);
                    lemma_related_tightens_len(before, p, q, rel);
                    done = done.insert((p, q)).insert((q, p));
                }
                r.relate(a, b, rel);
                proof {
                    assert forall|u: usize, w: usize| #![trigger edge(r@, u, w)]
                        edge(r@, u, w) == (if done.contains((u, w)) {
                            edge(source, u, w)
                        } else {
                            None
                        }) by {
                        assert(edge(r@, u, w) == edge(related(before, p, q, rel), u, w));
                        assert(source[q as int][p] == rel.rev());
                        if !((u == p && w == q) || (u == q && w == p)) {
                            assert(done.contains((u, w)) == done_before.contains((u, w)));
                        }
                    }
                }
            }
            i += 1;
        }
        proof {
            assert forall|x: usize, y: usize| #![trigger edge(r@, x, y)]
                edge(r@, x, y) == (if omit.selects(x) || omit.selects(y) {
                    None
                } else {
                    edge(source, x, y)
                }) by {
                if edge(source, x, y) is Some && !omit.selects(x) && !omit.selects(y) {
                    assert(source[x as int].contains_key(y));
                    let k = choose|k: int|
                        0 <= k < list@.len() && (#[trigger] list@[k]).0.index() == x
                            && list@[k].1.index() == y;
                    assert(done.contains((list@[k].0.index(), list@[k].1.index())));
                }
            }
        }
        r
    }

    /// One error for each forward relation of the order: its line names the two
    /// elements with the relation between them. An order without forward
    /// relations gives no error.
    pub fn verify_empty<T>(&self, names: &Scope<I, T>) -> (errors: ErrorGroup)
        requires
            self.wf(),
            self@.len() <= names@.len(),
        ensures
            lines_outcome::<I>(self@, names.names(), errors@),
            errors@.len() == 0 <==> forall|a: usize, b: usize| forward_edge(self@, a, b) is None,
            exists|list: Seq<(I, I, Relation)>|
                #![trigger lists_forward_edges(self@, list)]
                lists_forward_edges(self@, list) && errors@.len() == list.len() && forall|k: int|
                    0 <= k < list.len() ==> #[trigger] errors@[k] == leaf(
                        edge_text(names.names(), list[k].0.index(), list[k].2, list[k].1.index()),
                    ),
    {
        let list = self.iter_forward();
        let mut errors = ErrorGroup::new();
        let mut i: usize = 0;
        while i < list.len()
            invariant
                lists_forward_edges(self@, list@),
                self.wf(),
                self@.len() <= names@.len(),
                i <= list@.len(),
                errors@.len() == i,
                forall|k: int|
                    0 <= k < i ==> #[trigger] errors@[k] == leaf(
                        edge_text(
                            names.names(),
                            list@[k].0.index(),
                            list@[k].2,
                            list@[k].1.index(),
                        ),
                    ),
            decreases list@.len() - i,
        {
            let (a, b, rel) = list[i];
            assert(forward_edge(self@, list@[i as int].0.index(), list@[i as int].1.index()) == Some(
                rel,
            ));
            assert(self@[a.index() as int].contains_key(b.index()));
            let mut line = String::from_str(names.name(a));
            line.append(" ");
            line.append(rel.symbol());
            line.append(" ");
            line.append(names.name(b));
            errors.push_error(Error::new(line));
            i += 1;
        }
        proof {
            if errors@.len() == 0 {
                assert forall|a: usize, b: usize| forward_edge(self@, a, b) is None by {
                    if forward_edge(self@, a, b) is Some {
                        assert(self@[a as int].contains_key(b));
                        let k = choose|k: int|
                            0 <= k < list@.len() && (#[trigger] list@[k]).0.index() == a
                                && list@[k].1.index() == b;
                    }
                }
            } else {
                assert(forward_edge(self@, list@[0].0.index(), list@[0].1.index()) is Some);
            }
            assert(lists_forward_edges(self@, list@));
        }
        errors
    }

    /// The error that shows a cycle: one line with the names of its elements and
    /// the forward relation of each step between them.
    pub fn show_cycle<T>(&self, cycle: &Vec<I>, names: &Scope<I, T>) -> (e: Error)
        requires
            self.wf(),
            self@.len() <= names@.len(),
            is_walk(self@, positions(cycle@)),
            forall|k: int| 0 <= k < cycle@.len() ==> (#[trigger] cycle@[k]).index() < self@.len(),
        ensures
            e@ == leaf(walk_text(self@, names.names(), positions(cycle@))),
    {
        let ghost walk = positions(cycle@);
        let mut line = String::new();
        let mut i: usize = 0;
        assert(walk.subrange(0, 0) =~= Seq::<usize>::empty());
        while i < cycle.len()
            invariant
                self.wf(),
                self@.len() <= names@.len(),
                walk == positions(cycle@),
                is_walk(self@, walk),
                forall|k: int| 0 <= k < cycle@.len() ==> (#[trigger] cycle@[k]).index() < self@.len(),
                i <= cycle@.len(),
                line@ == walk_text(self@, names.names(), walk.subrange(0, i as int)),
            decreases cycle@.len() - i,
        {
            let b = cycle[i];
            let ghost upto = walk.subrange(0, i + 1);
            proof {
                assert(upto.drop_last() =~= walk.subrange(0, i as int));
                assert(upto.last() == b.index());
            }
            if i > 0 {
                let a = cycle[i - 1];
                proof {
                    assert(step(self@, walk, i - 1));
                    assert(upto[upto.len() - 2] == a.index());
                }
                let rel = match self.get(a, b) {
                    Some(rel) => rel,
                    None => vstd::pervasive::unreached(),
                };
                let fwd = match rel.lte_component() {
                    Some(fwd) => fwd,
                    None => vstd::pervasive::unreached(),
                };
                line.append(" ");
                line.append(fwd.symbol());
                line.append(" ");
            }
            line.append(names.name(b));
            proof {
                assert(line@ =~= walk_text(self@, names.names(), upto));
            }
            i += 1;
        }
        assert(walk.subrange(0, i as int) =~= walk);
        Error::new(line)
    }

    /// Looks for cycles and gives one error for each cycle found, which shows the
    /// cycle. An order without cycles gives no error; an order with an element
    /// strictly below itself gives at least one, and so does an order with a
    /// cycle whose forward relations are all strict.
    pub fn check_coherent<T>(&self, names: &Scope<I, T>) -> (errors: ErrorGroup)
        requires
            self.wf(),
            self@.len() <= names@.len(),
        ensures
            coherent_outcome(self@, names.names(), errors@),
            errors@.len() == 0 <==> !has_cycle(self@),
            !has_cycle(self@) ==> errors@.len() == 0,
            (exists|a: usize| a < self@.len() && strict_loop(self@, a)) ==> errors@.len() > 0,
            all_strict(self@) ==> (errors@.len() == 0 <==> !has_cycle(self@)),
            forall|k: int|
                0 <= k < errors@.len() ==> exists|cycle: Seq<usize>|
                    is_strict_cycle(self@, cycle) && #[trigger] errors@[k] == leaf(
                        walk_text(self@, names.names(), cycle),
                    ),
    {
        let cycles = self.find_cycles();
        let mut errors = ErrorGroup::new();
        let mut i: usize = 0;
        while i < cycles.len()
            invariant
                self.wf(),
                self@.len() <= names@.len(),
                i <= cycles@.len(),
                errors@.len() == i,
                forall|k: int|
                    0 <= k < cycles@.len() ==> is_strict_cycle(
                        self@,
                        positions((#[trigger] cycles@[k])@),
                    ),
                forall|k: int|
                    0 <= k < i ==> #[trigger] errors@[k] == leaf(
                        walk_text(self@, names.names(), positions(cycles@[k]@)),
                    ),
            decreases cycles@.len() - i,
        {
            proof {
                let walk = positions(cycles@[i as int]@);
                assert(is_strict_cycle(self@, walk));
                assert forall|k: int| 0 <= k < cycles@[i as int]@.len() implies (
                #[trigger] cycles@[i as int]@[k]).index() < self@.len() by {
                    if k < walk.len() - 1 {
                        assert(step(self@, walk, k));
                        assert(walk[k] == cycles@[i as int]@[k].index());
                    } else {
                        assert(step(self@, walk, k - 1));
                        assert(walk[k] == cycles@[i as int]@[k].index());
                        assert(self@[walk[k - 1] as int].contains_key(walk[k]));
                    }
                }
            }
            let e = self.show_cycle(&cycles[i], names);
            errors.push_error(e);
            i += 1;
        }
        proof {
            assert forall|k: int| 0 <= k < errors@.len() implies exists|cycle: Seq<usize>|
                is_strict_cycle(self@, cycle) && #[trigger] errors@[k] == leaf(
                    walk_text(self@, names.names(), cycle),
                ) by {
                assert(is_strict_cycle(self@, positions(cycles@[k]@)));
            }
            assert forall|x: usize| crate::order::find_cycles::on_cycle(self@, x) implies exists|
                k: int,
                cycle: Seq<usize>,
            |
                0 <= k < errors@.len() && is_strict_cycle(self@, cycle) && cycle.contains(x)
                    && #[trigger] errors@[k] == leaf(
                    #[trigger] walk_text(self@, names.names(), cycle),
                ) by {
                assert(crate::order::find_cycles::covers(cycles@, x));
                let j = choose|j: int|
                    0 <= j < cycles@.len() && positions((#[trigger] cycles@[j])@).contains(x);
                assert(is_strict_cycle(self@, positions(cycles@[j]@)));
                assert(errors@[j] == leaf(
                    walk_text(self@, names.names(), positions(cycles@[j]@)),
                ));
            }
        }
        errors
    }
}

/// The length of an order after a relation has been recorded.
pub proof fn lemma_related_tightens_len(rows: Rows, a: usize, b: usize, rel: Relation)
    requires
        a < usize::MAX,
        b < usize::MAX,
    ensures
        rows.len() <= related(rows, a, b, rel).len(),
        related(rows, a, b, rel).len() <= rows.len() || related(rows, a, b, rel).len() <= a + 1
            || related(rows, a, b, rel).len() <= b + 1,
{
}

} // verus!
