//! Code trees: the tree that a weight table gives, the code words read off it, and what
//! holds of them.

use crate::utils::bitvec_ext::bits_clone;
use crate::utils::bitvec_ext::bits_new;
use crate::utils::bitvec_ext::bits_of;
use crate::utils::bitvec_ext::bits_pop;
use crate::utils::bitvec_ext::bits_push;
use crate::utils::bitvec_ext::code_index;
use crate::utils::bitvec_ext::index_insert;
use crate::utils::bitvec_ext::index_new;
use crate::utils::bitvec_ext::CodeIndex;
use bit_vec::BitVec;
use std::collections::HashMap;
use vstd::prelude::*;

verus! {

/// A code tree as a mathematical value: a leaf holds a symbol and its weight, an inner
/// node a left and a right subtree.
pub enum CodeTree {
    Leaf(u8, usize),
    Node(Box<CodeTree>, Box<CodeTree>),
}

impl CodeTree {
    /// The sum of the weights of the leaves.
    pub open spec fn weight(self) -> nat
        decreases self,
    {
        match self {
            CodeTree::Leaf(_, w) => w as nat,
            CodeTree::Node(l, r) => (*l).weight() + (*r).weight(),
        }
    }

    /// The smallest symbol of a leaf.
    pub open spec fn min_symbol(self) -> u8
        decreases self,
    {
        match self {
            CodeTree::Leaf(s, _) => s,
            CodeTree::Node(l, r) => if (*l).min_symbol() <= (*r).min_symbol() {
                (*l).min_symbol()
            } else {
                (*r).min_symbol()
            },
        }
    }

    /// The number of leaves.
    pub open spec fn leaf_count(self) -> nat
        decreases self,
    {
        match self {
            CodeTree::Leaf(_, _) => 1,
            CodeTree::Node(l, r) => (*l).leaf_count() + (*r).leaf_count(),
        }
    }

    /// The length of the longest path from the root to a leaf.
    pub open spec fn height(self) -> nat
        decreases self,
    {
        match self {
            CodeTree::Leaf(_, _) => 0,
            CodeTree::Node(l, r) => 1 + if (*l).height() >= (*r).height() {
                (*l).height()
            } else {
                (*r).height()
            },
        }
    }

    /// The symbols of the leaves.
    pub open spec fn symbols(self) -> Set<u8>
        decreases self,
    {
        match self {
            CodeTree::Leaf(s, _) => Set::empty().insert(s),
            CodeTree::Node(l, r) => (*l).symbols().union((*r).symbols()),
        }
    }

    /// Whether no symbol stands at two leaves.
    pub open spec fn distinct(self) -> bool
        decreases self,
    {
        match self {
            CodeTree::Leaf(_, _) => true,
            CodeTree::Node(l, r) => (*l).distinct() && (*r).distinct() && (*l).symbols().disjoint(
                (*r).symbols(),
            ),
        }
    }

    /// The code word of every symbol when the path to the root of this tree is `prefix`:
    /// a step to the left adds a 0 bit, a step to the right a 1 bit.
    pub open spec fn codes(self, prefix: Seq<bool>) -> Map<u8, Seq<bool>>
        decreases self,
    {
        match self {
            CodeTree::Leaf(s, _) => Map::empty().insert(s, prefix),
            CodeTree::Node(l, r) => (*l).codes(prefix.push(false)).union_prefer_right(
                (*r).codes(prefix.push(true)),
            ),
        }
    }
}

/// The order in which trees are picked: the lighter first, and of two of one weight the
/// one with the smaller least symbol.
pub open spec fn precedes(a: CodeTree, b: CodeTree) -> bool {
    a.weight() < b.weight() || (a.weight() == b.weight() && a.min_symbol() < b.min_symbol())
}

/// The index of the tree that is picked among the first `n` of `f`: the first one that no
/// other precedes.
pub open spec fn first_min(f: Seq<CodeTree>, n: int) -> int
    decreases n,
{
    if n <= 1 {
        0
    } else {
        let best = first_min(f, n - 1);
        if precedes(f[n - 1], f[best]) {
            n - 1
        } else {
            best
        }
    }
}

/// The next tree of `f`: the index of the one that is picked.
pub open spec fn next_index(f: Seq<CodeTree>) -> int {
    first_min(f, f.len() as int)
}

/// `f` after one round: the two trees picked first are taken out, and their parent, the
/// first picked to the left, is put at the end.
pub open spec fn merge_step(f: Seq<CodeTree>) -> Seq<CodeTree> {
    let i = next_index(f);
    let g = f.remove(i);
    let j = next_index(g);
    g.remove(j).push(CodeTree::Node(Box::new(f[i]), Box::new(g[j])))
}

/// The first tree of `f` after `rounds` rounds.
pub open spec fn reduce(f: Seq<CodeTree>, rounds: nat) -> CodeTree
    decreases rounds,
{
    if rounds == 0 {
        f[0]
    } else {
        reduce(merge_step(f), (rounds - 1) as nat)
    }
}

/// The leaves for the symbols below `k` that the table holds, in ascending order.
pub open spec fn leaves_below(w: Map<u8, u8>, k: int) -> Seq<CodeTree>
    decreases k,
{
    if k <= 0 {
        Seq::empty()
    } else {
        let before = leaves_below(w, k - 1);
        if w.contains_key((k - 1) as u8) {
            before.push(CodeTree::Leaf((k - 1) as u8, w[(k - 1) as u8] as usize))
        } else {
            before
        }
    }
}

/// The code tree of a weight table.
pub open spec fn spec_tree(w: Map<u8, u8>) -> CodeTree {
    reduce(leaves_below(w, 256), (leaves_below(w, 256).len() - 1) as nat)
}

/// The code word of every symbol of a weight table. Every code word starts with a 1 bit.
pub open spec fn spec_codes(w: Map<u8, u8>) -> Map<u8, Seq<bool>> {
    spec_tree(w).codes(seq![true])
}

/// A table of code words as a map from symbols to bit sequences.
pub open spec fn code_table(m: Map<u8, BitVec>) -> Map<u8, Seq<bool>> {
    Map::new(|s: u8| m.contains_key(s), |s: u8| bits_of(m[s]))
}

/// The table read the other way: from each code word to a symbol that has it.
pub open spec fn inverse_codes(codes: Map<u8, Seq<bool>>) -> Map<Seq<bool>, u8> {
    Map::new(
        |c: Seq<bool>| exists|s: u8| codes.contains_key(s) && codes[s] == c,
        |c: Seq<bool>| choose|s: u8| codes.contains_key(s) && codes[s] == c,
    )
}

/// A node of a code tree.
#[derive(PartialEq, Eq, Hash, PartialOrd)]
pub struct HuffmanTree {
    val: Option<u8>,
    whole_tree_min_val: u8,
    weigths_sum: usize,
    left: Option<Box<HuffmanTree>>,
    right: Option<Box<HuffmanTree>>,
}

impl View for HuffmanTree {
    type V = CodeTree;

    closed spec fn view(&self) -> CodeTree
        decreases self,
    {
        match (self.left, self.right) {
            (Some(l), Some(r)) => CodeTree::Node(Box::new((*l).view()), Box::new((*r).view())),
            _ => CodeTree::Leaf(
                match self.val {
                    Some(s) => s,
                    None => 0,
                },
                self.weigths_sum,
            ),
        }
    }
}

impl Clone for HuffmanTree {
    fn clone(&self) -> (r: Self)
        ensures
            r == *self,
        decreases self,
    {
        HuffmanTree {
            val: self.val,
            whole_tree_min_val: self.whole_tree_min_val,
            weigths_sum: self.weigths_sum,
            left: (match &self.left {
                Some(t) => Some(Box::new((&**t).clone())),
                None => None,
            }),
            right: (match &self.right {
                Some(t) => Some(Box::new((&**t).clone())),
                None => None,
            }),
        }
    }
}

impl HuffmanTree {
    /// Whether the node is a leaf with a symbol or has two well-formed children, and its
    /// weight and least symbol are those of its tree.
    pub closed spec fn wf(&self) -> bool
        decreases self,
    {
        match (self.left, self.right) {
            (Some(l), Some(r)) => {
                &&& self.val is None
                &&& (*l).wf()
                &&& (*r).wf()
                &&& self.weigths_sum == (*l).weigths_sum + (*r).weigths_sum
                &&& self.whole_tree_min_val == if (*l).whole_tree_min_val <= (
                *r).whole_tree_min_val {
                    (*l).whole_tree_min_val
                } else {
                    (*r).whole_tree_min_val
                }
            },
            (None, None) => self.val == Some(self.whole_tree_min_val),
            _ => false,
        }
    }

    proof fn lemma_fields(&self)
        requires
            self.wf(),
        ensures
            self.weigths_sum == self@.weight(),
            self.whole_tree_min_val == self@.min_symbol(),
        decreases self,
    {
        match (self.left, self.right) {
            (Some(l), Some(r)) => {
                (*l).lemma_fields();
                (*r).lemma_fields();
            },
            _ => {},
        }
    }

    /// A leaf for `val` with the given weight.
    pub fn single_node(val: u8, weights_sum: usize) -> (r: Self)
        ensures
            r.wf(),
            r@ == CodeTree::Leaf(val, weights_sum),
    {
        HuffmanTree {
            val: Some(val),
            whole_tree_min_val: val,
            weigths_sum: weights_sum,
            left: None,
            right: None,
        }
    }

    /// A new tree with a copy of this one as its left child and `tree` as its right child.
    pub fn merge_right(&mut self, tree: HuffmanTree) -> (r: Self)
        requires
            old(self).wf(),
            tree.wf(),
            old(self)@.weight() + tree@.weight() <= usize::MAX,
        ensures
            *final(self) == *old(self),
            r.wf(),
            r@ == CodeTree::Node(Box::new(old(self)@), Box::new(tree@)),
    {
        proof {
            self.lemma_fields();
            tree.lemma_fields();
        }
        let min_val = if self.whole_tree_min_val <= tree.whole_tree_min_val {
            self.whole_tree_min_val
        } else {
            tree.whole_tree_min_val
        };
        HuffmanTree {
            val: None,
            whole_tree_min_val: min_val,
            weigths_sum: self.weigths_sum + tree.weigths_sum,
            left: Some(Box::new((*self).clone())),
            right: Some(Box::new(tree)),
        }
    }

    /// The code word of every symbol of the tree, the root having the one-bit path `1`.
    pub fn extract_mapping(&self) -> (r: HashMap<u8, BitVec>)
        requires
            self.wf(),
            self@.height() + 1 < usize::MAX,
        ensures
            code_table(r@) == self@.codes(seq![true]),
    {
        let mut mapping: HashMap<u8, BitVec> = HashMap::new();
        let mut prev_bits = bits_new();
        bits_push(&mut prev_bits, true);
        assert(bits_of(prev_bits) =~= seq![true]);
        assert(code_table(mapping@) =~= Map::<u8, Seq<bool>>::empty());
        self.recursive_extract_mapping(&mut prev_bits, &mut mapping);
        assert(code_table(mapping@) =~= self@.codes(seq![true]));
        mapping
    }

    /// Adds the code words of this tree to `mapping`; `prev_bits` is the path to its root,
    /// and is the same after the call as before.
    fn recursive_extract_mapping(&self, prev_bits: &mut BitVec, mapping: &mut HashMap<u8, BitVec>)
        requires
            self.wf(),
            bits_of(*old(prev_bits)).len() + self@.height() < usize::MAX,
        ensures
            bits_of(*final(prev_bits)) == bits_of(*old(prev_bits)),
            code_table(final(mapping)@) == code_table(old(mapping)@).union_prefer_right(
                self@.codes(bits_of(*old(prev_bits))),
            ),
        decreases self,
    {
        let ghost prefix = bits_of(*prev_bits);
        let ghost start = code_table(mapping@);
        if let Some(val) = self.val {
            mapping.insert(val, bits_clone(prev_bits));
        }
        let ghost with_own = code_table(mapping@);
        if let Some(t) = &self.left {
            bits_push(prev_bits, false);
            t.recursive_extract_mapping(prev_bits, mapping);
            bits_pop(prev_bits);
            assert(bits_of(*prev_bits) =~= prefix);
        }
        let ghost with_left = code_table(mapping@);
        if let Some(t) = &self.right {
            bits_push(prev_bits, true);
            t.recursive_extract_mapping(prev_bits, mapping);
            bits_pop(prev_bits);
            assert(bits_of(*prev_bits) =~= prefix);
        }
        proof {
            if self.left is Some && self.right is Some {
                assert(with_own == start);
            }
            assert(code_table(mapping@) =~= start.union_prefer_right(self@.codes(prefix)));
        }
    }
}

/// The trees of a working list as mathematical values.
pub open spec fn forest(v: Seq<HuffmanTree>) -> Seq<CodeTree> {
    Seq::new(v.len(), |i: int| v[i]@)
}

/// Whether a weight table names at least one symbol.
pub open spec fn non_empty_table(w: Map<u8, u8>) -> bool {
    exists|s: u8| w.contains_key(s)
}

spec fn total_weight(f: Seq<CodeTree>) -> nat
    decreases f.len(),
{
    if f.len() == 0 {
        0
    } else {
        total_weight(f.drop_last()) + f.last().weight()
    }
}

spec fn total_leaves(f: Seq<CodeTree>) -> nat
    decreases f.len(),
{
    if f.len() == 0 {
        0
    } else {
        total_leaves(f.drop_last()) + f.last().leaf_count()
    }
}

proof fn lemma_total_remove(f: Seq<CodeTree>, i: int)
    requires
        0 <= i < f.len(),
    ensures
        total_weight(f.remove(i)) + f[i].weight() == total_weight(f),
        total_leaves(f.remove(i)) + f[i].leaf_count() == total_leaves(f),
    decreases f.len(),
{
    if i == f.len() - 1 {
        assert(f.remove(i) =~= f.drop_last());
    } else {
        lemma_total_remove(f.drop_last(), i);
        assert(f.remove(i).drop_last() =~= f.drop_last().remove(i));
        assert(f.remove(i).last() == f.last());
    }
}

proof fn lemma_total_push(f: Seq<CodeTree>, t: CodeTree)
    ensures
        total_weight(f.push(t)) == total_weight(f) + t.weight(),
        total_leaves(f.push(t)) == total_leaves(f) + t.leaf_count(),
{
    assert(f.push(t).drop_last() =~= f);
}

proof fn lemma_total_bounds(f: Seq<CodeTree>, i: int)
    requires
        0 <= i < f.len(),
    ensures
        f[i].weight() <= total_weight(f),
        f[i].leaf_count() <= total_leaves(f),
{
    lemma_total_remove(f, i);
}

proof fn lemma_height_below_leaves(t: CodeTree)
    ensures
        t.height() < t.leaf_count(),
    decreases t,
{
    match t {
        CodeTree::Leaf(_, _) => {},
        CodeTree::Node(l, r) => {
            lemma_height_below_leaves(*l);
            lemma_height_below_leaves(*r);
        },
    }
}

/// The picked index lies in the list.
pub proof fn lemma_first_min_in_range(f: Seq<CodeTree>, n: int)
    requires
        1 <= n,
    ensures
        0 <= first_min(f, n) < n,
    decreases n,
{
    if n > 1 {
        lemma_first_min_in_range(f, n - 1);
    }
}

proof fn lemma_leaves_below(w: Map<u8, u8>, k: int)
    requires
        0 <= k <= 256,
    ensures
        leaves_below(w, k).len() <= k,
        total_weight(leaves_below(w, k)) <= 255 * leaves_below(w, k).len(),
        total_leaves(leaves_below(w, k)) == leaves_below(w, k).len(),
        forall|s: u8| s < k && w.contains_key(s) ==> leaves_below(w, k).len() > 0,
    decreases k,
{
    if k > 0 {
        lemma_leaves_below(w, k - 1);
        if w.contains_key((k - 1) as u8) {
            lemma_total_push(
                leaves_below(w, k - 1),
                CodeTree::Leaf((k - 1) as u8, w[(k - 1) as u8] as usize),
            );
        }
    }
}

/// Every symbol of a tree has a code word, no other symbol has one, and every code word
/// starts with the path to the root.
pub proof fn lemma_codes_domain(t: CodeTree, p: Seq<bool>)
    ensures
        t.codes(p).dom() == t.symbols(),
        forall|s: u8| #[trigger]
            t.symbols().contains(s) ==> p.is_prefix_of(t.codes(p)[s]),
    decreases t,
{
    match t {
        CodeTree::Leaf(s, _) => {
            assert(t.codes(p).dom() =~= t.symbols());
        },
        CodeTree::Node(l, r) => {
            let p0 = p.push(false);
            let p1 = p.push(true);
            lemma_codes_domain(*l, p0);
            lemma_codes_domain(*r, p1);
            assert(t.codes(p).dom() =~= t.symbols());
            assert forall|s: u8| #[trigger] t.symbols().contains(s) implies p.is_prefix_of(
                t.codes(p)[s],
            ) by {
                let c = t.codes(p)[s];
                if (*r).symbols().contains(s) {
                    assert(p1.is_prefix_of(c));
                    assert(p =~= p1.subrange(0, p.len() as int));
                    assert(p =~= c.subrange(0, p.len() as int));
                } else {
                    assert((*l).symbols().contains(s));
                    assert(p0.is_prefix_of(c));
                    assert(p =~= p0.subrange(0, p.len() as int));
                    assert(p =~= c.subrange(0, p.len() as int));
                }
            }
        },
    }
}

/// In a tree whose leaves hold different symbols, the code word of one symbol is never the
/// start of the code word of another.
pub proof fn lemma_tree_prefix_free(t: CodeTree, p: Seq<bool>, a: u8, b: u8)
    requires
        t.distinct(),
        t.symbols().contains(a),
        t.symbols().contains(b),
        a != b,
    ensures
        !t.codes(p)[a].is_prefix_of(t.codes(p)[b]),
    decreases t,
{
    match t {
        CodeTree::Leaf(s, _) => {},
        CodeTree::Node(l, r) => {
            let p0 = p.push(false);
            let p1 = p.push(true);
            lemma_codes_domain(*l, p0);
            lemma_codes_domain(*r, p1);
            let ca = t.codes(p)[a];
            let cb = t.codes(p)[b];
            let a_right = (*r).symbols().contains(a);
            let b_right = (*r).symbols().contains(b);
            if a_right && b_right {
                lemma_tree_prefix_free(*r, p1, a, b);
            } else if !a_right && !b_right {
                lemma_tree_prefix_free(*l, p0, a, b);
            } else {
                let pa = if a_right {
                    p1
                } else {
                    p0
                };
                let pb = if b_right {
                    p1
                } else {
                    p0
                };
                assert(pa.is_prefix_of(ca));
                assert(pb.is_prefix_of(cb));
                let at = p.len() as int;
                assert(ca.subrange(0, pa.len() as int)[at] == ca[at]);
                assert(cb.subrange(0, pb.len() as int)[at] == cb[at]);
                assert(ca[at] == pa[at]);
                assert(cb[at] == pb[at]);
                if ca.is_prefix_of(cb) {
                    assert(cb.subrange(0, ca.len() as int)[at] == cb[at]);
                }
            }
        },
    }
}

/// Whether every tree of the list has different symbols at its leaves and no two trees
/// share a symbol.
pub open spec fn forest_ok(f: Seq<CodeTree>) -> bool {
    &&& forall|i: int| 0 <= i < f.len() ==> (#[trigger] f[i]).distinct()
    &&& forall|a: int, b: int|
        0 <= a < b < f.len() ==> (#[trigger] f[a]).symbols().disjoint((#[trigger] f[b]).symbols())
}

/// The symbols of all the trees of a list.
pub open spec fn forest_symbols(f: Seq<CodeTree>) -> Set<u8> {
    Set::new(|s: u8| exists|i: int| 0 <= i < f.len() && (#[trigger] f[i]).symbols().contains(s))
}

proof fn lemma_remove_ok(f: Seq<CodeTree>, i: int)
    requires
        0 <= i < f.len(),
        forest_ok(f),
    ensures
        forest_ok(f.remove(i)),
        forall|x: int|
            0 <= x < f.remove(i).len() ==> (#[trigger] f.remove(i)[x]).symbols().disjoint(
                f[i].symbols(),
            ),
        forest_symbols(f) == forest_symbols(f.remove(i)).union(f[i].symbols()),
{
    let g = f.remove(i);
    assert forall|x: int| 0 <= x < g.len() implies (#[trigger] g[x]).distinct() && g[x].symbols().disjoint(
        f[i].symbols(),
    ) by {
        let y = if x < i {
            x
        } else {
            x + 1
        };
        assert(g[x] == f[y]);
        if y < i {
            assert(f[y].symbols().disjoint(f[i].symbols()));
        } else {
            assert(f[i].symbols().disjoint(f[y].symbols()));
        }
    }
    assert forall|a: int, b: int| 0 <= a < b < g.len() implies (#[trigger] g[a]).symbols().disjoint(
        (#[trigger] g[b]).symbols(),
    ) by {
        let ya = if a < i {
            a
        } else {
            a + 1
        };
        let yb = if b < i {
            b
        } else {
            b + 1
        };
        assert(g[a] == f[ya] && g[b] == f[yb]);
        assert(f[ya].symbols().disjoint(f[yb].symbols()));
    }
    assert forall|s: u8| forest_symbols(f).contains(s) <==> forest_symbols(g).union(
        f[i].symbols(),
    ).contains(s) by {
        if forest_symbols(f).contains(s) {
            let y = choose|y: int| 0 <= y < f.len() && (#[trigger] f[y]).symbols().contains(s);
            if y != i {
                let x = if y < i {
                    y
                } else {
                    y - 1
                };
                assert(g[x] == f[y]);
                assert(g[x].symbols().contains(s));
            }
        }
        if forest_symbols(g).contains(s) {
            let x = choose|x: int| 0 <= x < g.len() && (#[trigger] g[x]).symbols().contains(s);
            let y = if x < i {
                x
            } else {
                x + 1
            };
            assert(g[x] == f[y]);
            assert(f[y].symbols().contains(s));
        }
        if f[i].symbols().contains(s) {
            assert(forest_symbols(f).contains(s));
        }
    }
    assert(forest_symbols(f) =~= forest_symbols(g).union(f[i].symbols()));
}

proof fn lemma_push_ok(f: Seq<CodeTree>, t: CodeTree)
    requires
        forest_ok(f),
        t.distinct(),
        forall|x: int| 0 <= x < f.len() ==> (#[trigger] f[x]).symbols().disjoint(t.symbols()),
    ensures
        forest_ok(f.push(t)),
        forest_symbols(f.push(t)) == forest_symbols(f).union(t.symbols()),
{
    let g = f.push(t);
    assert forall|a: int, b: int| 0 <= a < b < g.len() implies (#[trigger] g[a]).symbols().disjoint(
        (#[trigger] g[b]).symbols(),
    ) by {
        assert(g[a] == f[a]);
        if b < f.len() {
            assert(g[b] == f[b]);
        }
    }
    assert forall|s: u8| forest_symbols(g).contains(s) <==> forest_symbols(f).union(
        t.symbols(),
    ).contains(s) by {
        if forest_symbols(g).contains(s) {
            let x = choose|x: int| 0 <= x < g.len() && (#[trigger] g[x]).symbols().contains(s);
            if x < f.len() {
                assert(g[x] == f[x]);
                assert(f[x].symbols().contains(s));
            }
        }
        if forest_symbols(f).contains(s) {
            let x = choose|x: int| 0 <= x < f.len() && (#[trigger] f[x]).symbols().contains(s);
            assert(g[x] == f[x]);
            assert(g[x].symbols().contains(s));
        }
        if t.symbols().contains(s) {
            assert(g[f.len() as int] == t);
            assert(g[f.len() as int].symbols().contains(s));
        }
    }
    assert(forest_symbols(g) =~= forest_symbols(f).union(t.symbols()));
}

proof fn lemma_merge_step(f: Seq<CodeTree>)
    requires
        f.len() >= 2,
        forest_ok(f),
    ensures
        merge_step(f).len() == f.len() - 1,
        forest_ok(merge_step(f)),
        forest_symbols(merge_step(f)) == forest_symbols(f),
{
    let i = next_index(f);
    let g = f.remove(i);
    let j = next_index(g);
    let h = g.remove(j);
    let t = CodeTree::Node(Box::new(f[i]), Box::new(g[j]));
    lemma_first_min_in_range(f, f.len() as int);
    lemma_first_min_in_range(g, g.len() as int);
    lemma_remove_ok(f, i);
    lemma_remove_ok(g, j);
    assert(g[j].symbols().disjoint(f[i].symbols()));
    assert forall|x: int| 0 <= x < h.len() implies (#[trigger] h[x]).symbols().disjoint(
        t.symbols(),
    ) by {
        let y = if x < j {
            x
        } else {
            x + 1
        };
        assert(h[x] == g[y]);
        assert(g[y].symbols().disjoint(f[i].symbols()));
    }
    lemma_push_ok(h, t);
    assert(forest_symbols(merge_step(f)) =~= forest_symbols(f));
}

proof fn lemma_reduce(f: Seq<CodeTree>, rounds: nat)
    requires
        f.len() == rounds + 1,
        forest_ok(f),
    ensures
        reduce(f, rounds).distinct(),
        reduce(f, rounds).symbols() == forest_symbols(f),
    decreases rounds,
{
    if rounds == 0 {
        assert(forest_symbols(f) =~= f[0].symbols());
    } else {
        lemma_merge_step(f);
        lemma_reduce(merge_step(f), (rounds - 1) as nat);
    }
}

proof fn lemma_leaves_ok(w: Map<u8, u8>, k: int)
    requires
        0 <= k <= 256,
    ensures
        forest_ok(leaves_below(w, k)),
        forest_symbols(leaves_below(w, k)) == Set::new(|s: u8| s < k && w.contains_key(s)),
    decreases k,
{
    let target = Set::new(|s: u8| s < k && w.contains_key(s));
    if k > 0 {
        lemma_leaves_ok(w, k - 1);
        let before = leaves_below(w, k - 1);
        if w.contains_key((k - 1) as u8) {
            let leaf = CodeTree::Leaf((k - 1) as u8, w[(k - 1) as u8] as usize);
            assert forall|x: int| 0 <= x < before.len() implies (#[trigger] before[x]).symbols().disjoint(
                leaf.symbols(),
            ) by {
                if before[x].symbols().contains((k - 1) as u8) {
                    assert(forest_symbols(before).contains((k - 1) as u8));
                }
            }
            lemma_push_ok(before, leaf);
            assert(forest_symbols(leaves_below(w, k)) =~= target);
        } else {
            assert(forest_symbols(leaves_below(w, k)) =~= target);
        }
    } else {
        assert(forest_symbols(leaves_below(w, k)) =~= target);
    }
}

/// The code tree of a table holds each symbol of the table at exactly one leaf.
pub proof fn lemma_spec_tree(w: Map<u8, u8>)
    requires
        non_empty_table(w),
    ensures
        spec_tree(w).distinct(),
        spec_tree(w).symbols() == w.dom(),
        spec_codes(w).dom() == w.dom(),
{
    lemma_leaves_ok(w, 256);
    lemma_leaves_below(w, 256);
    let f = leaves_below(w, 256);
    let s = choose|s: u8| w.contains_key(s);
    assert(s < 256 && w.contains_key(s));
    lemma_reduce(f, (f.len() - 1) as nat);
    assert(forest_symbols(f) =~= w.dom());
    lemma_codes_domain(spec_tree(w), seq![true]);
}

/// No code word of a table with two or more symbols is the start of another: the code is
/// prefix-free. (With one symbol there is one code word, and nothing to compare.)
pub proof fn lemma_prefix_free(w: Map<u8, u8>, a: u8, b: u8)
    requires
        w.contains_key(a),
        w.contains_key(b),
        a != b,
    ensures
        spec_codes(w).contains_key(a),
        spec_codes(w).contains_key(b),
        !spec_codes(w)[a].is_prefix_of(spec_codes(w)[b]),
{
    lemma_spec_tree(w);
    lemma_tree_prefix_free(spec_tree(w), seq![true], a, b);
}

/// Two symbols of a table never share a code word.
pub proof fn lemma_codes_injective(w: Map<u8, u8>, a: u8, b: u8)
    requires
        w.contains_key(a),
        w.contains_key(b),
        spec_codes(w)[a] == spec_codes(w)[b],
    ensures
        a == b,
{
    if a != b {
        lemma_prefix_free(w, a, b);
        let c = spec_codes(w)[a];
        assert(c =~= c.subrange(0, c.len() as int));
    }
}

proof fn lemma_reduce_leaves(f: Seq<CodeTree>, rounds: nat)
    requires
        f.len() == rounds + 1,
    ensures
        reduce(f, rounds).leaf_count() == total_leaves(f),
    decreases rounds,
{
    if rounds == 0 {
        lemma_total_remove(f, 0);
        assert(f.remove(0) =~= Seq::<CodeTree>::empty());
    } else {
        let i = next_index(f);
        let g = f.remove(i);
        let j = next_index(g);
        lemma_first_min_in_range(f, f.len() as int);
        lemma_first_min_in_range(g, g.len() as int);
        lemma_total_remove(f, i);
        lemma_total_remove(g, j);
        lemma_total_push(g.remove(j), CodeTree::Node(Box::new(f[i]), Box::new(g[j])));
        lemma_reduce_leaves(merge_step(f), (rounds - 1) as nat);
    }
}

proof fn lemma_tree_code_length(t: CodeTree, p: Seq<bool>, s: u8)
    requires
        t.symbols().contains(s),
    ensures
        p.len() <= t.codes(p)[s].len() <= p.len() + t.height(),
    decreases t,
{
    match t {
        CodeTree::Leaf(_, _) => {},
        CodeTree::Node(l, r) => {
            lemma_codes_domain(*l, p.push(false));
            lemma_codes_domain(*r, p.push(true));
            if (*r).symbols().contains(s) {
                lemma_tree_code_length(*r, p.push(true), s);
            } else {
                lemma_tree_code_length(*l, p.push(false), s);
            }
        },
    }
}

/// A code word has at least one bit and at most 256.
pub proof fn lemma_code_length(w: Map<u8, u8>, s: u8)
    requires
        w.contains_key(s),
    ensures
        1 <= spec_codes(w)[s].len() <= 256,
{
    lemma_spec_tree(w);
    lemma_leaves_below(w, 256);
    let f = leaves_below(w, 256);
    lemma_reduce_leaves(f, (f.len() - 1) as nat);
    lemma_height_below_leaves(spec_tree(w));
    lemma_tree_code_length(spec_tree(w), seq![true], s);
}

/// The inverse table gives back the symbol of each code word.
pub proof fn lemma_inverse_codes(w: Map<u8, u8>, s: u8)
    requires
        w.contains_key(s),
    ensures
        inverse_codes(spec_codes(w)).contains_key(spec_codes(w)[s]),
        inverse_codes(spec_codes(w))[spec_codes(w)[s]] == s,
{
    lemma_spec_tree(w);
    let codes = spec_codes(w);
    let c = codes[s];
    assert(codes.contains_key(s) && codes[s] == c);
    let x = inverse_codes(codes)[c];
    assert(codes.contains_key(x) && codes[x] == c);
    lemma_codes_injective(w, x, s);
}

proof fn lemma_min_symbol_is_symbol(t: CodeTree)
    ensures
        t.symbols().contains(t.min_symbol()),
    decreases t,
{
    match t {
        CodeTree::Leaf(_, _) => {},
        CodeTree::Node(l, r) => {
            lemma_min_symbol_is_symbol(*l);
            lemma_min_symbol_is_symbol(*r);
        },
    }
}

/// Two trees of a list that share no symbol differ in their least symbol, so one of them
/// is picked before the other.
proof fn lemma_forest_keys_differ(f: Seq<CodeTree>, i: int, j: int)
    requires
        forest_ok(f),
        0 <= i < f.len(),
        0 <= j < f.len(),
        i != j,
    ensures
        f[i].min_symbol() != f[j].min_symbol(),
        f[i] != f[j],
        precedes(f[i], f[j]) || precedes(f[j], f[i]),
{
    lemma_min_symbol_is_symbol(f[i]);
    lemma_min_symbol_is_symbol(f[j]);
    if i < j {
        assert(f[i].symbols().disjoint(f[j].symbols()));
    } else {
        assert(f[j].symbols().disjoint(f[i].symbols()));
    }
}

proof fn lemma_first_min_is_least(f: Seq<CodeTree>, n: int, j: int)
    requires
        1 <= n <= f.len(),
        0 <= j < n,
    ensures
        !precedes(f[j], f[first_min(f, n)]),
    decreases n,
{
    if n > 1 {
        lemma_first_min_in_range(f, n - 1);
        if j < n - 1 {
            lemma_first_min_is_least(f, n - 1, j);
        }
    }
}

/// Whether two lists hold the same trees, in whatever order.
pub open spec fn same_trees(f: Seq<CodeTree>, g: Seq<CodeTree>) -> bool {
    forall|t: CodeTree| f.contains(t) <==> g.contains(t)
}

proof fn lemma_same_pick(f: Seq<CodeTree>, g: Seq<CodeTree>)
    requires
        f.len() >= 1,
        g.len() >= 1,
        forest_ok(f),
        forest_ok(g),
        same_trees(f, g),
    ensures
        f[next_index(f)] == g[next_index(g)],
{
    let i = next_index(f);
    let j = next_index(g);
    lemma_first_min_in_range(f, f.len() as int);
    lemma_first_min_in_range(g, g.len() as int);
    let a = f[i];
    let b = g[j];
    assert(f.contains(a));
    assert(g.contains(b));
    let ja = choose|ja: int| 0 <= ja < g.len() && g[ja] == a;
    let ib = choose|ib: int| 0 <= ib < f.len() && f[ib] == b;
    lemma_first_min_is_least(g, g.len() as int, ja);
    lemma_first_min_is_least(f, f.len() as int, ib);
    if ib != i {
        lemma_forest_keys_differ(f, i, ib);
    }
}

proof fn lemma_remove_contains(f: Seq<CodeTree>, i: int, t: CodeTree)
    requires
        forest_ok(f),
        0 <= i < f.len(),
    ensures
        f.remove(i).contains(t) <==> (f.contains(t) && t != f[i]),
{
    let g = f.remove(i);
    if g.contains(t) {
        let x = choose|x: int| 0 <= x < g.len() && g[x] == t;
        let y = if x < i {
            x
        } else {
            x + 1
        };
        assert(f[y] == t);
        lemma_forest_keys_differ(f, y, i);
    }
    if f.contains(t) && t != f[i] {
        let y = choose|y: int| 0 <= y < f.len() && f[y] == t;
        let x = if y < i {
            y
        } else {
            y - 1
        };
        assert(g[x] == t);
    }
}

proof fn lemma_merge_step_same_trees(f: Seq<CodeTree>, g: Seq<CodeTree>)
    requires
        f.len() >= 2,
        g.len() == f.len(),
        forest_ok(f),
        forest_ok(g),
        same_trees(f, g),
    ensures
        same_trees(merge_step(f), merge_step(g)),
{
    let i = next_index(f);
    let j = next_index(g);
    lemma_first_min_in_range(f, f.len() as int);
    lemma_first_min_in_range(g, g.len() as int);
    lemma_same_pick(f, g);
    let f1 = f.remove(i);
    let g1 = g.remove(j);
    lemma_remove_ok(f, i);
    lemma_remove_ok(g, j);
    assert forall|t: CodeTree| f1.contains(t) <==> g1.contains(t) by {
        lemma_remove_contains(f, i, t);
        lemma_remove_contains(g, j, t);
        assert(f.contains(t) <==> g.contains(t));
    }
    assert(same_trees(f1, g1));
    let i2 = next_index(f1);
    let j2 = next_index(g1);
    lemma_first_min_in_range(f1, f1.len() as int);
    lemma_first_min_in_range(g1, g1.len() as int);
    lemma_same_pick(f1, g1);
    let f2 = f1.remove(i2);
    let g2 = g1.remove(j2);
    assert forall|t: CodeTree| f2.contains(t) <==> g2.contains(t) by {
        lemma_remove_contains(f1, i2, t);
        lemma_remove_contains(g1, j2, t);
        assert(f1.contains(t) <==> g1.contains(t));
    }
    let parent = CodeTree::Node(Box::new(f[i]), Box::new(f1[i2]));
    assert(merge_step(f) == f2.push(parent));
    assert(merge_step(g) == g2.push(parent));
    assert forall|t: CodeTree| f2.push(parent).contains(t) <==> g2.push(parent).contains(t) by {
        lemma_push_contains(f2, parent, t);
        lemma_push_contains(g2, parent, t);
        assert(f2.contains(t) <==> g2.contains(t));
    }
}

proof fn lemma_push_contains(f: Seq<CodeTree>, x: CodeTree, t: CodeTree)
    ensures
        f.push(x).contains(t) <==> (f.contains(t) || t == x),
{
    let g = f.push(x);
    if g.contains(t) {
        let k = choose|k: int| 0 <= k < g.len() && g[k] == t;
        if k < f.len() {
            assert(f[k] == t);
        }
    }
    if f.contains(t) {
        let k = choose|k: int| 0 <= k < f.len() && f[k] == t;
        assert(g[k] == t);
    }
    if t == x {
        assert(g[f.len() as int] == t);
    }
}

/// The tree that is built does not depend on the order in which the trees of the working
/// list stand: two lists of the same trees, each symbol at one leaf, give the same tree.
pub proof fn lemma_reduce_order_independent(f: Seq<CodeTree>, g: Seq<CodeTree>, rounds: nat)
    requires
        f.len() == rounds + 1,
        g.len() == rounds + 1,
        forest_ok(f),
        forest_ok(g),
        same_trees(f, g),
    ensures
        reduce(f, rounds) == reduce(g, rounds),
    decreases rounds,
{
    if rounds == 0 {
        assert(f.contains(f[0]));
        let k = choose|k: int| 0 <= k < g.len() && g[k] == f[0];
        assert(k == 0);
    } else {
        lemma_merge_step(f);
        lemma_merge_step(g);
        lemma_merge_step_same_trees(f, g);
        lemma_reduce_order_independent(merge_step(f), merge_step(g), (rounds - 1) as nat);
    }
}

/// Two code tables that were built from the same weight table hold the same code words,
/// bit for bit.
pub proof fn lemma_codes_deterministic(
    w: Map<u8, u8>,
    first: Map<u8, BitVec>,
    second: Map<u8, BitVec>,
)
    requires
        code_table(first) == spec_codes(w),
        code_table(second) == spec_codes(w),
    ensures
        forall|s: u8| first.contains_key(s) <==> second.contains_key(s),
        forall|s: u8| first.contains_key(s) ==> bits_of(#[trigger] first[s]) == bits_of(second[s]),
{
    assert forall|s: u8| first.contains_key(s) <==> second.contains_key(s) by {
        assert(code_table(first).contains_key(s) <==> first.contains_key(s));
        assert(code_table(second).contains_key(s) <==> second.contains_key(s));
    }
    assert forall|s: u8| first.contains_key(s) implies bits_of(#[trigger] first[s]) == bits_of(
        second[s],
    ) by {
        assert(code_table(first)[s] == bits_of(first[s]));
        assert(code_table(second)[s] == bits_of(second[s]));
    }
}

/// The inverse table for the symbols below `k` alone.
spec fn inverse_below(codes: Map<u8, Seq<bool>>, k: int) -> Map<Seq<bool>, u8> {
    Map::new(
        |c: Seq<bool>| exists|s: u8| s < k && codes.contains_key(s) && codes[s] == c,
        |c: Seq<bool>| choose|s: u8| codes.contains_key(s) && codes[s] == c,
    )
}

proof fn lemma_inverse_below_step(w: Map<u8, u8>, k: int)
    requires
        0 <= k < 256,
        non_empty_table(w),
    ensures
        inverse_below(spec_codes(w), k + 1) == if spec_codes(w).contains_key(k as u8) {
            inverse_below(spec_codes(w), k).insert(spec_codes(w)[k as u8], k as u8)
        } else {
            inverse_below(spec_codes(w), k)
        },
{
    let codes = spec_codes(w);
    lemma_spec_tree(w);
    let next = inverse_below(codes, k + 1);
    let now = inverse_below(codes, k);
    if codes.contains_key(k as u8) {
        let c = codes[k as u8];
        let target = now.insert(c, k as u8);
        assert forall|d: Seq<bool>| next.contains_key(d) <==> target.contains_key(d) by {
            if next.contains_key(d) {
                let x = choose|x: u8| x < k + 1 && codes.contains_key(x) && codes[x] == d;
                if x < k {
                    assert(now.contains_key(d));
                }
            }
            if now.contains_key(d) {
                let x = choose|x: u8| x < k && codes.contains_key(x) && codes[x] == d;
                assert(x < k + 1 && codes.contains_key(x) && codes[x] == d);
            }
            if d == c {
                assert((k as u8) < k + 1 && codes.contains_key(k as u8) && codes[k as u8] == d);
            }
        }
        assert forall|d: Seq<bool>| next.contains_key(d) implies next[d] == target[d] by {
            if d == c {
                let x = next[d];
                assert(codes.contains_key(k as u8) && codes[k as u8] == d);
                assert(codes.contains_key(x) && codes[x] == d);
                lemma_codes_injective(w, x, k as u8);
            } else {
                assert(next[d] == now[d]);
            }
        }
        assert(next =~= target);
    } else {
        assert forall|d: Seq<bool>| next.contains_key(d) <==> now.contains_key(d) by {
            if next.contains_key(d) {
                let x = choose|x: u8| x < k + 1 && codes.contains_key(x) && codes[x] == d;
                assert(x < k && codes.contains_key(x) && codes[x] == d);
            }
            if now.contains_key(d) {
                let x = choose|x: u8| x < k && codes.contains_key(x) && codes[x] == d;
                assert(x < k + 1 && codes.contains_key(x) && codes[x] == d);
            }
        }
        assert(next =~= now);
    }
}

/// Builds the code tables of a weight table.
pub struct HuffmanTreeCreator;

impl HuffmanTreeCreator {
    /// Both tables of a weight table: from symbols to code words, and back.
    pub fn get_mappings(weights: &HashMap<u8, u8>) -> (r: (HashMap<u8, BitVec>, CodeIndex))
        requires
            non_empty_table(weights@),
        ensures
            code_table(r.0@) == spec_codes(weights@),
            code_index(r.1) == inverse_codes(spec_codes(weights@)),
    {
        let on_bits = HuffmanTreeCreator::get_mapping_on_bits(weights);
        let on_bytes = HuffmanTreeCreator::get_mapping_on_bytes(weights);
        (on_bits, on_bytes)
    }

    /// The code word of every symbol of the table. One leaf per symbol; then, until one tree
    /// is left, the two trees that are picked first become the children of a new one.
    pub fn get_mapping_on_bits(weights: &HashMap<u8, u8>) -> (r: HashMap<u8, BitVec>)
        requires
            non_empty_table(weights@),
        ensures
            code_table(r@) == spec_codes(weights@),
    {
        let mut trees_seq: Vec<HuffmanTree> = Vec::new();
        let mut k: usize = 0;
        while k < 256
            invariant
                k <= 256,
                forest(trees_seq@) == leaves_below(weights@, k as int),
                forall|i: int| 0 <= i < trees_seq@.len() ==> (#[trigger] trees_seq@[i]).wf(),
            decreases 256 - k,
        {
            let symbol = k as u8;
            match weights.get(&symbol) {
                Some(w) => {
                    let leaf = HuffmanTree::single_node(symbol, *w as usize);
                    let ghost before = trees_seq@;
                    trees_seq.push(leaf);
                    assert(forest(trees_seq@) =~= forest(before).push(leaf@));
                },
                None => {},
            }
            k += 1;
        }
        proof {
            lemma_leaves_below(weights@, 256);
        }
        let operations_num = trees_seq.len() - 1;
        let mut done: usize = 0;
        while done < operations_num
            invariant
                done <= operations_num,
                trees_seq@.len() == operations_num + 1 - done,
                forall|i: int| 0 <= i < trees_seq@.len() ==> (#[trigger] trees_seq@[i]).wf(),
                total_weight(forest(trees_seq@)) <= 255 * 256,
                total_leaves(forest(trees_seq@)) <= 256,
                reduce(forest(trees_seq@), (operations_num - done) as nat) == spec_tree(weights@),
            decreases operations_num - done,
        {
            let ghost f = forest(trees_seq@);
            let ghost i = next_index(f);
            let ghost g = f.remove(i);
            let ghost j = next_index(g);
            proof {
                lemma_first_min_in_range(f, f.len() as int);
                lemma_first_min_in_range(g, g.len() as int);
                lemma_total_remove(f, i);
                lemma_total_remove(g, j);
            }
            let mut tree_left = HuffmanTreeCreator::get_and_rm_next_elem(&mut trees_seq);
            assert(forest(trees_seq@) =~= g);
            let tree_right = HuffmanTreeCreator::get_and_rm_next_elem(&mut trees_seq);
            assert(forest(trees_seq@) =~= g.remove(j));
            let new_tree = tree_left.merge_right(tree_right);
            let ghost before = trees_seq@;
            trees_seq.push(new_tree);
            proof {
                assert(forest(trees_seq@) =~= forest(before).push(new_tree@));
                assert(forest(trees_seq@) == merge_step(f));
                lemma_total_push(g.remove(j), new_tree@);
            }
            done += 1;
        }
        proof {
            lemma_total_bounds(forest(trees_seq@), 0);
            lemma_height_below_leaves(trees_seq@[0]@);
        }
        trees_seq[0].extract_mapping()
    }

    /// Takes the tree that is picked next out of the list.
    fn get_and_rm_next_elem(trees_seq: &mut Vec<HuffmanTree>) -> (r: HuffmanTree)
        requires
            old(trees_seq)@.len() > 0,
            forall|i: int| 0 <= i < old(trees_seq)@.len() ==> (#[trigger] old(trees_seq)@[i]).wf(),
        ensures
            0 <= next_index(forest(old(trees_seq)@)) < old(trees_seq)@.len(),
            r == old(trees_seq)@[next_index(forest(old(trees_seq)@))],
            final(trees_seq)@ == old(trees_seq)@.remove(next_index(forest(old(trees_seq)@))),
            r.wf(),
            forall|i: int| 0 <= i < final(trees_seq)@.len() ==> (#[trigger] final(trees_seq)@[i]).wf(),
    {
        let mut index: usize = 0;
        let mut min_w: usize = usize::MAX;
        let mut min_val: u8 = u8::MAX;
        let ghost f = forest(trees_seq@);
        let n = trees_seq.len();
        let mut i: usize = 0;
        while i < n
            invariant
                i <= n,
                n == trees_seq@.len(),
                n > 0,
                trees_seq@ == old(trees_seq)@,
                f == forest(trees_seq@),
                forall|j: int| 0 <= j < trees_seq@.len() ==> (#[trigger] trees_seq@[j]).wf(),
                i == 0 ==> index == 0 && min_w == usize::MAX && min_val == u8::MAX,
                i > 0 ==> index == first_min(f, i as int) && index < i && min_w
                    == f[index as int].weight() && min_val == f[index as int].min_symbol(),
            decreases n - i,
        {
            proof {
                trees_seq@[i as int].lemma_fields();
            }
            let t = &trees_seq[i];
            if min_w > t.weigths_sum || (min_w == t.weigths_sum && min_val
                > t.whole_tree_min_val) {
                min_w = t.weigths_sum;
                min_val = t.whole_tree_min_val;
                index = i;
            }
            i += 1;
        }
        trees_seq.remove(index)
    }

    /// The symbol of every code word of the table.
    pub fn get_mapping_on_bytes(weights: &HashMap<u8, u8>) -> (r: CodeIndex)
        requires
            non_empty_table(weights@),
        ensures
            code_index(r) == inverse_codes(spec_codes(weights@)),
    {
        let on_bits = HuffmanTreeCreator::get_mapping_on_bits(weights);
        let mut on_bytes = index_new();
        let mut k: usize = 0;
        while k < 256
            invariant
                k <= 256,
                non_empty_table(weights@),
                code_table(on_bits@) == spec_codes(weights@),
                code_index(on_bytes) == inverse_below(spec_codes(weights@), k as int),
            decreases 256 - k,
        {
            let symbol = k as u8;
            match on_bits.get(&symbol) {
                Some(code) => {
                    index_insert(&mut on_bytes, bits_clone(code), symbol);
                },
                None => {},
            }
            proof {
                lemma_inverse_below_step(weights@, k as int);
            }
            k += 1;
        }
        proof {
            assert(inverse_below(spec_codes(weights@), 256) =~= inverse_codes(
                spec_codes(weights@),
            ));
        }
        on_bytes
    }
}

} // verus!
