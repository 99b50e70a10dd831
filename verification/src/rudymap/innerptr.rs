//! The inner pointer: one cell of the trie, logically a (shape, node,
//! population) triple. The node is one of the adaptive shapes; the
//! population counts the entries in the subtree below the cell and is kept
//! beside the node in a word-minus-one-byte counter, as the tagged-word
//! layout reserves one byte of the word for the shape tag.

use vstd::prelude::*;
use vstd::map::*;
use vstd::set_lib::lemma_len_subset;
use crate::rudymap::branch_bitmap::{BranchBitmap, Subexpanse};
use crate::rudymap::branch_linear::BranchLinear;
use crate::rudymap::branch_uncompressed::BranchUncompressed;
use crate::rudymap::empty::Empty;
use crate::rudymap::leaf_bitmap::LeafBitmap;
use crate::util::{be_val, partial_read, partial_write};
use crate::key::lemma_pow256_values;

verus! {

/// A subtree population, stored in the seven bytes of the pointer word that
/// the shape tag leaves free.
pub struct Population {
    pub inner: Vec<u8>,
}

impl Population {
    /// Seven big-endian bytes.
    pub open spec fn wf(self) -> bool {
        self.inner@.len() == 7
    }

    /// The count the bytes denote.
    pub open spec fn spec_val(self) -> nat {
        be_val(self.inner@)
    }

    /// Packs a count into the seven bytes; it must fit.
    pub fn new(value: usize) -> (r: Population)
        requires
            (value as nat) < 0x100000000000000,
        ensures
            r.wf(),
            r.spec_val() == value,
    {
        let mut inner: Vec<u8> = Vec::new();
        let mut i: usize = 0;
        while i < 7
            invariant
                i <= 7,
                inner@.len() == i,
            decreases 7 - i,
        {
            inner.push(0u8);
            i = i + 1;
        }
        proof {
            lemma_pow256_values();
        }
        partial_write(&mut inner, value);
        let r = Population { inner };
        proof {
            crate::util::lemma_be_round_trip(value as nat, 7);
            crate::util::lemma_be_bytes_len(value as nat, 7);
        }
        r
    }

    /// Reads the count back out.
    pub fn as_usize(&self) -> (r: usize)
        requires
            self.wf(),
            self.spec_val() <= usize::MAX,
        ensures
            r as nat == self.spec_val(),
    {
        partial_read(&self.inner)
    }
}

/// The adaptive node shapes an inner pointer can tag.
pub enum Node<V> {
    /// No subtree.
    Empty(Empty),
    /// Up to seven sorted (byte, child) pairs.
    BranchLinear(Box<BranchLinear<V>>),
    /// 256 child slots in eight bitmapped subexpanses.
    BranchBitmap(Box<BranchBitmap<V>>),
    /// A direct array of 256 child slots.
    BranchUncompressed(Box<BranchUncompressed<V>>),
    /// The terminal node at the last key byte.
    LeafBitmap(Box<LeafBitmap<V>>),
}

/// One cell of the trie: the tagged node and the population of the subtree
/// below it.
pub struct InnerPtr<V> {
    pub pop: Population,
    pub node: Node<V>,
}

/// The child a branch node registers under byte `b`.
pub open spec fn branch_children<V>(n: Node<V>, b: u8) -> Option<InnerPtr<V>> {
    match n {
        Node::Empty(_) => None,
        Node::BranchLinear(bl) => bl.child(b),
        Node::BranchBitmap(bb) => bb.child(b),
        Node::BranchUncompressed(bu) => bu.child(b),
        Node::LeafBitmap(_) => None,
    }
}

/// The entries below a family of children, as a map from the remaining `d`
/// key bytes to values: the branch holds `s` when the child under `s[0]`
/// holds the rest.
pub open spec fn branch_view<V>(ch: spec_fn(u8) -> Option<InnerPtr<V>>, d: nat) -> Map<Seq<u8>, V>
    decreases d, 0nat,
{
    if d < 2 {
        Map::empty()
    } else {
        Map::new(
            |s: Seq<u8>|
                s.len() == d && opt_view(ch(s[0]), (d - 1) as nat).contains_key(s.skip(1)),
            |s: Seq<u8>| opt_view(ch(s[0]), (d - 1) as nat)[s.skip(1)],
        )
    }
}

/// The entries below a node.
pub open spec fn node_view<V>(n: Node<V>, d: nat) -> Map<Seq<u8>, V>
    decreases d, 1nat,
{
    match n {
        Node::Empty(_) => Map::empty(),
        Node::LeafBitmap(l) => if d == 1 {
            l.as_map()
        } else {
            Map::empty()
        },
        _ => branch_view(|b: u8| branch_children(n, b), d),
    }
}

/// The entries below an inner pointer.
pub open spec fn ip_view<V>(p: InnerPtr<V>, d: nat) -> Map<Seq<u8>, V>
    decreases d, 2nat,
{
    node_view(p.node, d)
}

/// The entries below an optional child; an absent child holds nothing.
pub open spec fn opt_view<V>(c: Option<InnerPtr<V>>, d: nat) -> Map<Seq<u8>, V>
    decreases d, 3nat,
{
    match c {
        Some(p) => ip_view(p, d),
        None => Map::empty(),
    }
}

/// Well-formedness of one subexpanse at child depth `dc`: an allocated block
/// has 32 well-formed slots, and a bit is set exactly where the slot holds a
/// non-empty subtree.
pub open spec fn sub_wf<V>(se: Subexpanse<V>, dc: nat) -> bool
    decreases dc, 2nat,
{
    &&& (se.ptr matches Some(v) ==> v@.len() == 32 && (forall|i: int|
        0 <= i < 32 ==> ip_wf(#[trigger] v@[i], dc)))
    &&& (forall|i: u8|
        i < 32 ==> (crate::rudymap::branch_bitmap::sub_bit(se.bitmap, i) <==> (se.ptr is Some
            && ip_view(#[trigger] se.ptr.unwrap()@[i as int], dc).len() > 0)))
}

/// Well-formedness of a node at depth `d`: the shape fits the depth, its
/// local invariant holds, and every child is well-formed one level down.
pub open spec fn node_wf<V>(n: Node<V>, d: nat) -> bool
    decreases d, 0nat,
{
    match n {
        Node::Empty(_) => true,
        Node::LeafBitmap(l) => d == 1 && l.wf(),
        Node::BranchLinear(bl) => {
            &&& d >= 2
            &&& bl.array.wf()
            &&& bl.sorted()
            &&& (forall|i: int|
                0 <= i < bl.array.seq2().len() ==> ip_wf(
                    #[trigger] bl.array.seq2()[i],
                    (d - 1) as nat,
                ))
        },
        Node::BranchBitmap(bb) => {
            &&& d >= 2
            &&& bb.subexpanses@.len() == 8
            &&& (forall|j: int| 0 <= j < 8 ==> sub_wf(#[trigger] bb.subexpanses@[j], (d - 1) as nat))
        },
        Node::BranchUncompressed(bu) => {
            &&& d >= 2
            &&& bu.array@.len() == 256
            &&& (forall|i: int| 0 <= i < 256 ==> ip_wf(#[trigger] bu.array@[i], (d - 1) as nat))
        },
    }
}

/// Well-formedness of an inner pointer: the node is well-formed and the
/// stored population equals the number of entries below, which fits both the
/// seven-byte counter and a machine word.
pub open spec fn ip_wf<V>(p: InnerPtr<V>, d: nat) -> bool
    decreases d, 1nat,
{
    &&& node_wf(p.node, d)
    &&& p.pop.wf()
    &&& p.pop.spec_val() == ip_view(p, d).len()
    &&& ip_view(p, d).dom().finite()
    &&& ip_view(p, d).len() < 0x100000000000000
    &&& ip_view(p, d).len() <= usize::MAX
}

/// Two equal-length strings with the same head and tail are the same string.
pub proof fn lemma_seq_head_tail(a: Seq<u8>, b: Seq<u8>)
    requires
        a.len() == b.len(),
        a.len() >= 1,
        a[0] == b[0],
        a.skip(1) == b.skip(1),
    ensures
        a == b,
{
    assert forall|i: int| 0 <= i < a.len() implies a[i] == b[i] by {
        if i > 0 {
            assert(a[i] == a.skip(1)[i - 1]);
            assert(b[i] == b.skip(1)[i - 1]);
        }
    }
    assert(a =~= b);
}

/// Every key below a node has exactly the remaining `d` bytes.
pub proof fn lemma_view_key_len<V>(n: Node<V>, d: nat)
    ensures
        forall|s: Seq<u8>| #[trigger] node_view(n, d).contains_key(s) ==> s.len() == d,
{
    match n {
        Node::LeafBitmap(l) => {
        },
        _ => {
        },
    }
}

/// A map of suffixes, re-keyed under a leading byte.
pub open spec fn prefixed<V>(b: u8, m: Map<Seq<u8>, V>) -> Map<Seq<u8>, V> {
    Map::new(
        |s: Seq<u8>| s.len() >= 1 && s[0] == b && m.contains_key(s.skip(1)),
        |s: Seq<u8>| m[s.skip(1)],
    )
}

/// Re-keying under a leading byte keeps the number of entries.
pub proof fn lemma_prefixed_len<V>(b: u8, m: Map<Seq<u8>, V>)
    requires
        m.dom().finite(),
    ensures
        prefixed(b, m).dom().finite(),
        prefixed(b, m).len() == m.len(),
    decreases m.dom().len(),
{
    if m.dom().len() == 0 {
        assert forall|s: Seq<u8>| !(#[trigger] prefixed(b, m).dom().contains(s)) by {
            if m.contains_key(s.skip(1)) {
                vstd::set::axiom_set_contains_len(m.dom(), s.skip(1));
            }
        }
        assert(prefixed(b, m).dom() =~= Set::<Seq<u8>>::empty());
    } else {
        let k = m.dom().choose();
        assert(m.dom().contains(k)) by {
            vstd::set::axiom_set_choose_len(m.dom());
        }
        let m2 = m.remove(k);
        assert(m2.dom().len() == m.dom().len() - 1);
        lemma_prefixed_len(b, m2);
        let c = seq![b] + k;
        assert(c.len() == 1 + k.len());
        assert(c[0] == b);
        assert(c.skip(1) =~= k);
        assert forall|s: Seq<u8>|
            #[trigger] prefixed(b, m).dom().contains(s) == prefixed(b, m2).insert(
                c,
                m[k],
            ).dom().contains(s) by {
            if s.len() >= 1 && s[0] == b && s.skip(1) == k {
                lemma_seq_head_tail(s, c);
            }
        }
        assert(prefixed(b, m) =~= prefixed(b, m2).insert(c, m[k])) by {
            assert forall|s: Seq<u8>| #[trigger] prefixed(b, m).dom().contains(s) implies prefixed(
                b,
                m,
            )[s] == prefixed(b, m2).insert(c, m[k])[s] by {
                if s == c {
                    assert(prefixed(b, m)[s] == m[k]);
                } else {
                    assert(s.skip(1) != k) by {
                        if s.skip(1) == k {
                            lemma_seq_head_tail(s, c);
                        }
                    }
                }
            }
        }
        assert(!prefixed(b, m2).dom().contains(c));
    }
}

/// A child's entries are no more numerous than its branch's.
pub proof fn lemma_child_view_le<V>(ch: spec_fn(u8) -> Option<InnerPtr<V>>, d: nat, b: u8)
    requires
        d >= 2,
        branch_view(ch, d).dom().finite(),
    ensures
        opt_view(ch(b), (d - 1) as nat).len() <= branch_view(ch, d).len(),
        opt_view(ch(b), (d - 1) as nat).dom().finite(),
{
    let cv = opt_view(ch(b), (d - 1) as nat);
    let pv = branch_view(ch, d);
    // the prefixed child entries are exactly the branch entries that start
    // with `b`, a subset of all branch entries
    assert forall|s: Seq<u8>| #[trigger] prefixed(b, cv).dom().contains(s) implies pv.dom().contains(
        s,
    ) by {
        lemma_opt_view_key_len(ch(b), (d - 1) as nat);
        assert(cv.contains_key(s.skip(1)));
        assert(s.skip(1).len() == d - 1);
        assert(s.len() == d);
    }
    assert(prefixed(b, cv).dom() <= pv.dom());
    // the subset gives the bound once the child count equals the prefixed
    // count
    assert forall|s: Seq<u8>| #[trigger] cv.dom().contains(s) implies prefixed(
        b,
        cv,
    ).dom().contains(seq![b] + s) by {
        assert((seq![b] + s).skip(1) =~= s);
        assert((seq![b] + s)[0] == b);
    }
    // establish finiteness of the child's domain from the prefixed copy
    assert(cv.dom().finite() && cv.dom().len() == prefixed(b, cv).dom().len()) by {
        lemma_prefixed_from_child(b, cv);
    }
    lemma_len_subset(prefixed(b, cv).dom(), pv.dom());
}

/// The child map and its re-keyed copy have the same size, and the child's
/// domain is finite whenever the branch's is.
proof fn lemma_prefixed_from_child<V>(b: u8, cv: Map<Seq<u8>, V>)
    requires
        prefixed(b, cv).dom().finite(),
    ensures
        cv.dom().finite(),
        cv.dom().len() == prefixed(b, cv).dom().len(),
    decreases prefixed(b, cv).dom().len(),
{
    if prefixed(b, cv).dom().len() == 0 {
        assert forall|t: Seq<u8>| !(#[trigger] cv.dom().contains(t)) by {
            if cv.dom().contains(t) {
                let s = seq![b] + t;
                assert(s.skip(1) =~= t);
                assert(s[0] == b);
                assert(prefixed(b, cv).dom().contains(s));
                vstd::set::axiom_set_contains_len(prefixed(b, cv).dom(), s);
            }
        }
        assert(cv.dom() =~= Set::<Seq<u8>>::empty());
    } else {
        let s = prefixed(b, cv).dom().choose();
        assert(prefixed(b, cv).dom().contains(s)) by {
            vstd::set::axiom_set_choose_len(prefixed(b, cv).dom());
        }
        let t = s.skip(1);
        let cv2 = cv.remove(t);
        assert(prefixed(b, cv2) =~= prefixed(b, cv).remove(s)) by {
            assert forall|u: Seq<u8>|
                #[trigger] prefixed(b, cv2).dom().contains(u) == prefixed(b, cv).remove(
                    s,
                ).dom().contains(u) by {
                if u.len() >= 1 && u[0] == b {
                    if u.skip(1) == t {
                        assert(u.len() == 1 + u.skip(1).len());
                        assert(s.len() == 1 + s.skip(1).len());
                        lemma_seq_head_tail(u, s);
                    }
                }
            }
            assert forall|u: Seq<u8>| #[trigger] prefixed(b, cv2).dom().contains(u) implies prefixed(
                b,
                cv2,
            )[u] == prefixed(b, cv).remove(s)[u] by {}
        }
        assert(prefixed(b, cv).remove(s).dom().len() == prefixed(b, cv).dom().len() - 1);
        lemma_prefixed_from_child(b, cv2);
        assert(cv.dom().contains(t));
        assert(cv2.dom().len() == cv.dom().len() - 1);
    }
}

/// Every key below an optional child has exactly `d` bytes.
pub proof fn lemma_opt_view_key_len<V>(c: Option<InnerPtr<V>>, d: nat)
    ensures
        forall|s: Seq<u8>| #[trigger] opt_view(c, d).contains_key(s) ==> s.len() == d,
{
    match c {
        Some(p) => {
            lemma_view_key_len(p.node, d);
        },
        None => {
        },
    }
}

/// Replacing one child of a branch with a child holding one more entry
/// inserts that entry into the branch's own map.
pub proof fn lemma_branch_update<V>(
    ch1: spec_fn(u8) -> Option<InnerPtr<V>>,
    ch2: spec_fn(u8) -> Option<InnerPtr<V>>,
    d: nat,
    s: Seq<u8>,
    v: V,
)
    requires
        d >= 2,
        s.len() == d,
        opt_view(ch2(s[0]), (d - 1) as nat) == opt_view(ch1(s[0]), (d - 1) as nat).insert(
            s.skip(1),
            v,
        ),
        forall|b: u8|
            b != s[0] ==> opt_view(#[trigger] ch2(b), (d - 1) as nat) == opt_view(
                ch1(b),
                (d - 1) as nat,
            ),
    ensures
        branch_view(ch2, d) == branch_view(ch1, d).insert(s, v),
{
    assert_maps_equal!(branch_view(ch2, d), branch_view(ch1, d).insert(s, v), t => {
        if t.len() == d && t[0] == s[0] && t != s {
            assert(t.skip(1) != s.skip(1)) by {
                if t.skip(1) == s.skip(1) {
                    lemma_seq_head_tail(t, s);
                }
            }
        }
    });
}

/// Replacing one child of a branch with a child holding one entry fewer
/// removes that entry from the branch's own map.
pub proof fn lemma_branch_remove<V>(
    ch1: spec_fn(u8) -> Option<InnerPtr<V>>,
    ch2: spec_fn(u8) -> Option<InnerPtr<V>>,
    d: nat,
    s: Seq<u8>,
)
    requires
        d >= 2,
        s.len() == d,
        opt_view(ch2(s[0]), (d - 1) as nat) == opt_view(ch1(s[0]), (d - 1) as nat).remove(
            s.skip(1),
        ),
        forall|b: u8|
            b != s[0] ==> opt_view(#[trigger] ch2(b), (d - 1) as nat) == opt_view(
                ch1(b),
                (d - 1) as nat,
            ),
    ensures
        branch_view(ch2, d) == branch_view(ch1, d).remove(s),
{
    assert_maps_equal!(branch_view(ch2, d), branch_view(ch1, d).remove(s), t => {
        if t.len() == d && t[0] == s[0] && t != s {
            assert(t.skip(1) != s.skip(1)) by {
                if t.skip(1) == s.skip(1) {
                    lemma_seq_head_tail(t, s);
                }
            }
        }
    });
}

/// Two branches whose children hold the same entries hold the same entries.
pub proof fn lemma_branch_congruent<V>(
    ch1: spec_fn(u8) -> Option<InnerPtr<V>>,
    ch2: spec_fn(u8) -> Option<InnerPtr<V>>,
    d: nat,
)
    requires
        forall|b: u8|
            opt_view(#[trigger] ch2(b), (d - 1) as nat) == opt_view(ch1(b), (d - 1) as nat),
    ensures
        branch_view(ch2, d) == branch_view(ch1, d),
{
    if d >= 2 {
        assert_maps_equal!(branch_view(ch2, d), branch_view(ch1, d), t => {});
    }
}

/// A finite map with no entries is the empty map.
pub proof fn lemma_len0_empty<V>(m: Map<Seq<u8>, V>)
    requires
        m.dom().finite(),
        m.len() == 0,
    ensures
        m == Map::<Seq<u8>, V>::empty(),
{
    assert forall|s: Seq<u8>| !(#[trigger] m.dom().contains(s)) by {
        if m.dom().contains(s) {
            vstd::set::axiom_set_contains_len(m.dom(), s);
        }
    }
    assert(m =~= Map::<Seq<u8>, V>::empty());
}

/// A branch whose children all hold nothing holds nothing.
pub proof fn lemma_branch_view_empty<V>(ch: spec_fn(u8) -> Option<InnerPtr<V>>, d: nat)
    requires
        forall|b: u8| opt_view(#[trigger] ch(b), (d - 1) as nat) == Map::<Seq<u8>, V>::empty(),
    ensures
        branch_view(ch, d) == Map::<Seq<u8>, V>::empty(),
{
    if d >= 2 {
        assert_maps_equal!(branch_view(ch, d), Map::<Seq<u8>, V>::empty(), t => {});
    }
}

impl<V> InnerPtr<V> {
    /// The empty cell: no node, population zero. Allocation-free.
    pub fn empty() -> (r: Self)
        ensures
            r.node is Empty,
            forall|d: nat| #[trigger] ip_wf(r, d),
    {
        let pop = Population::new(0);
        let r = InnerPtr { pop, node: Node::Empty(Empty::new()) };
        proof {
            assert forall|d: nat| #[trigger] ip_wf(r, d) by {
                assert(ip_view(r, d) =~= Map::<Seq<u8>, V>::empty());
            }
        }
        r
    }

    /// The population stored beside the node.
    pub fn get_population(&self) -> (r: usize)
        requires
            self.pop.wf(),
            self.pop.spec_val() <= usize::MAX,
        ensures
            r as nat == self.pop.spec_val(),
    {
        self.pop.as_usize()
    }

    /// Looks up the value stored under the remaining key bytes, which run
    /// from position `at` to the end of `bytes`.
    pub fn get<'a>(&'a self, bytes: &Vec<u8>, at: usize) -> (r: Option<&'a V>)
        requires
            at < bytes@.len(),
            bytes@.len() <= usize::MAX,
            ip_wf(*self, (bytes@.len() - at) as nat),
        ensures
            ({
                let m = ip_view(*self, (bytes@.len() - at) as nat);
                let k = bytes@.skip(at as int);
                &&& (r is Some <==> m.contains_key(k))
                &&& (r matches Some(v) ==> *v == m[k])
            }),
        decreases bytes@.len() - at, 1int,
    {
        let ghost d = (bytes@.len() - at) as nat;
        let ghost key = bytes@.skip(at as int);
        proof {
            assert(key.len() == d);
            assert(key[0] == bytes@[at as int]);
        }
        match &self.node {
            Node::Empty(_) => None,
            Node::LeafBitmap(l) => {
                let b = bytes[at];
                proof {
                    assert(key =~= seq![b]);
                }
                l.get(b)
            },
            Node::BranchLinear(bl) => {
                let b = bytes[at];
                proof {
                    assert(key.skip(1) =~= bytes@.skip(at + 1 as int));
                }
                match crate::util::linear_search(bl.array.array1(), &b) {
                    Ok(i) => {
                        proof {
                            bl.array.lemma_wf();
                            assert(d >= 2);
                            crate::rudymap::branch_linear::lemma_first_index_is(
                                bl.array.seq1(),
                                b,
                                i as int,
                            );
                            assert(ip_wf(bl.array.seq2()[i as int], (d - 1) as nat));
                        }
                        let child = &bl.array.array2()[i];
                        child.get(bytes, at + 1)
                    },
                    Err(i) => {
                        proof {
                            assert forall|j: int| 0 <= j < bl.array.seq1().len() implies bl.array.seq1()[j]
                                != b by {
                                if j >= i {
                                    assert(i < bl.array.seq1().len());
                                }
                            }
                            crate::rudymap::branch_linear::lemma_first_index(bl.array.seq1(), b);
                        }
                        None
                    },
                }
            },
            Node::BranchBitmap(bb) => {
                let b = bytes[at];
                proof {
                    assert(key.skip(1) =~= bytes@.skip(at + 1 as int));
                    assert(b as int / 32 < 8);
                }
                let se = &bb.subexpanses[(b / 32) as usize];
                se.get(b % 32, bytes, at + 1)
            },
            Node::BranchUncompressed(bu) => {
                let b = bytes[at];
                proof {
                    assert(key.skip(1) =~= bytes@.skip(at + 1 as int));
                }
                let child = &bu.array[b as usize];
                child.get(bytes, at + 1)
            },
        }
    }

    /// Installs the rebuilt node and books the population change of one
    /// insert: up by one on a fresh key, unchanged on a replacement.
    fn insert_finish(
        &mut self,
        node: Node<V>,
        evicted: Option<V>,
        Ghost(d): Ghost<nat>,
        Ghost(k): Ghost<Seq<u8>>,
        Ghost(gv): Ghost<V>,
        Ghost(m0): Ghost<Map<Seq<u8>, V>>,
    ) -> (r: Option<V>)
        requires
            old(self).pop.wf(),
            old(self).pop.spec_val() == m0.len(),
            m0.dom().finite(),
            m0.len() + 1 < 0x100000000000000,
            m0.len() < usize::MAX,
            node_wf(node, d),
            node_view(node, d) == m0.insert(k, gv),
            evicted == (if m0.contains_key(k) {
                Some(m0[k])
            } else {
                None::<V>
            }),
        ensures
            ip_wf(*final(self), d),
            ip_view(*final(self), d) == m0.insert(k, gv),
            r == evicted,
    {
        self.node = node;
        let cur = self.pop.as_usize();
        proof {
            assert(m0.insert(k, gv).dom() == m0.dom().insert(k));
        }
        match &evicted {
            None => {
                self.pop = Population::new(cur + 1);
            },
            Some(_) => {
            },
        }
        evicted
    }

    /// Inserts `value` under the remaining key bytes, which run from
    /// position `at` to the end of `bytes`; a full node is expanded into its
    /// successor shape in place. Returns the value the key previously held,
    /// if any.
    pub fn insert(&mut self, bytes: &Vec<u8>, at: usize, value: V) -> (r: Option<V>)
        requires
            at < bytes@.len(),
            bytes@.len() <= usize::MAX,
            ip_wf(*old(self), (bytes@.len() - at) as nat),
            ip_view(*old(self), (bytes@.len() - at) as nat).len() + 1 < 0x100000000000000,
            ip_view(*old(self), (bytes@.len() - at) as nat).len() < usize::MAX,
        ensures
            ({
                let d = (bytes@.len() - at) as nat;
                let k = bytes@.skip(at as int);
                let m = ip_view(*old(self), d);
                &&& ip_wf(*final(self), d)
                &&& ip_view(*final(self), d) == m.insert(k, value)
                &&& r == (if m.contains_key(k) {
                    Some(m[k])
                } else {
                    None::<V>
                })
            }),
        decreases bytes@.len() - at, 3int,
    {
        let ghost d = (bytes@.len() - at) as nat;
        let ghost k = bytes@.skip(at as int);
        let ghost pre = *self;
        let ghost m0 = ip_view(pre, d);
        let ghost gv = value;
        proof {
            assert(k.len() == d);
            assert(k[0] == bytes@[at as int]);
            assert(k.skip(1) =~= bytes@.skip(at + 1 as int));
        }
        let mut node = Node::Empty(Empty::new());
        core::mem::swap(&mut self.node, &mut node);
        let pair: (Node<V>, Option<V>) = match node {
            Node::Empty(_) => {
                let b = bytes[at];
                proof {
                    assert(m0 == Map::<Seq<u8>, V>::empty());
                }
                if at + 1 == bytes.len() {
                    let mut leaf = LeafBitmap::new();
                    let lr = leaf.insert(b, value);
                    let lev = lr.success();
                    let nn = Node::LeafBitmap(Box::new(leaf));
                    proof {
                        assert(d == 1);
                        assert(k =~= seq![b]);
                        assert(node_view(nn, d) == m0.insert(k, gv));
                        assert(lev is None);
                    }
                    (nn, lev)
                } else {
                    let e0 = InnerPtr::empty();
                    let ghost ge0 = e0;
                    let mut bl = BranchLinear::new();
                    let ir = bl.array.insert(0, b, e0);
                    proof {
                        assert(ir is Ok);
                        assert(bl.array.seq1() =~= Seq::<u8>::empty().insert(0, b));
                        assert(bl.array.seq1() =~= seq![b]);
                        assert(bl.array.seq2() =~= seq![ge0]);
                    }
                    let ghost blm = bl;
                    let child = bl.array.value_mut(0);
                    proof {
                        assert((*child).node is Empty);
                        assert(ip_wf(*child, (d - 1) as nat));
                    }
                    let ev2 = child.insert(bytes, at + 1, value);
                    proof {
                        assert(ev2 is None);
                        assert(ip_view(*child, (d - 1) as nat) == Map::<Seq<u8>, V>::empty().insert(
                            k.skip(1),
                            gv,
                        ));
                        assert(ip_wf(*child, (d - 1) as nat));
                    }
                    let ghost cf = *child;
                    let nn = Node::BranchLinear(Box::new(bl));
                    proof {
                        assert(d >= 2);
                        let dc = (d - 1) as nat;
                        let ghost ch1 = |x: u8| blm.child(x);
                        let ghost chf = |x: u8| branch_children(nn, x);
                        crate::rudymap::branch_linear::lemma_first_index_is(blm.array.seq1(), b, 0);
                        assert(ch1(b) == Some(ge0));
                        assert forall|x: u8|
                            opt_view(#[trigger] ch1(x), dc) == Map::<Seq<u8>, V>::empty() by {
                            crate::rudymap::branch_linear::lemma_first_index(blm.array.seq1(), x);
                            if x != b {
                                let fi = crate::rudymap::branch_linear::first_index(
                                    blm.array.seq1(),
                                    x,
                                );
                                if fi >= 0 {
                                    assert(blm.array.seq1()[fi] == x);
                                    assert(blm.array.seq1()[fi] == b);
                                }
                            }
                        }
                        lemma_branch_view_empty(ch1, d);
                        // the built node registers the filled child under `b`
                        // and nothing else
                        let blf = *nn->BranchLinear_0;
                        assert(blf.array.seq1() == blm.array.seq1());
                        assert(blf.array.seq2() == blm.array.seq2().update(0, cf));
                        crate::rudymap::branch_linear::lemma_first_index_is(blf.array.seq1(), b, 0);
                        assert(chf(b) == Some(cf));
                        assert forall|x: u8| x != b implies opt_view(#[trigger] chf(x), dc)
                            == opt_view(ch1(x), dc) by {
                            crate::rudymap::branch_linear::lemma_first_index(blf.array.seq1(), x);
                            let fi = crate::rudymap::branch_linear::first_index(
                                blf.array.seq1(),
                                x,
                            );
                            if fi >= 0 {
                                assert(blf.array.seq1()[fi] == x);
                                assert(blf.array.seq1()[fi] == b);
                            } else {
                                assert(chf(x) is None);
                                assert(ch1(x) is None) by {
                                    crate::rudymap::branch_linear::lemma_first_index(
                                        blm.array.seq1(),
                                        x,
                                    );
                                    let f2 = crate::rudymap::branch_linear::first_index(
                                        blm.array.seq1(),
                                        x,
                                    );
                                    if f2 >= 0 {
                                        assert(blm.array.seq1()[f2] == x);
                                        assert(blm.array.seq1()[f2] == b);
                                    }
                                }
                            }
                        }
                        lemma_branch_update(ch1, chf, d, k, gv);
                        assert(node_view(nn, d) == branch_view(chf, d)) by {
                            lemma_branch_congruent(chf, |x: u8| branch_children(nn, x), d);
                        }
                        assert(node_view(nn, d) == m0.insert(k, gv));
                        assert(node_wf(nn, d)) by {
                            assert forall|i: int| 0 <= i < blf.array.seq2().len() implies ip_wf(
                                #[trigger] blf.array.seq2()[i],
                                dc,
                            ) by {
                                assert(blf.array.seq2()[i] == cf);
                            }
                        }
                    }
                    (nn, ev2)
                }
            },
            Node::LeafBitmap(mut l) => {
                let ghost l0 = *l;
                let b = bytes[at];
                let lr = l.insert(b, value);
                let lev = lr.success();
                let nn = Node::LeafBitmap(l);
                proof {
                    assert(d == 1);
                    assert(k =~= seq![b]);
                    assert(m0 == l0.as_map());
                    assert(node_view(nn, d) == m0.insert(k, gv));
                }
                (nn, lev)
            },
            Node::BranchLinear(mut bl) => {
                let ghost bl0 = *bl;
                let ghost ch0 = |x: u8| bl0.child(x);
                let b = bytes[at];
                proof {
                    assert(d >= 2);
                    bl0.array.lemma_wf();
                    assert(m0 == branch_view(ch0, d)) by {
                        lemma_branch_congruent(|x: u8| branch_children(pre.node, x), ch0, d);
                    }
                }
                match crate::util::linear_search(bl.array.array1(), &b) {
                    Ok(i) => {
                        proof {
                            crate::rudymap::branch_linear::lemma_first_index_is(
                                bl0.array.seq1(),
                                b,
                                i as int,
                            );
                            assert(ch0(b) == Some(bl0.array.seq2()[i as int]));
                            assert(ip_wf(bl0.array.seq2()[i as int], (d - 1) as nat));
                            lemma_child_view_le(ch0, d, b);
                        }
                        let child = bl.array.value_mut(i);
                        let ev2 = child.insert(bytes, at + 1, value);
                        proof {
                            assert(ip_view(*child, (d - 1) as nat) == opt_view(
                                ch0(b),
                                (d - 1) as nat,
                            ).insert(k.skip(1), gv));
                            assert(ip_wf(*child, (d - 1) as nat));
                        }
                        let ghost cf = *child;
                        let nn = Node::BranchLinear(bl);
                        proof {
                            let dc = (d - 1) as nat;
                            let ghost chf = |x: u8| branch_children(nn, x);
                            let blf = *nn->BranchLinear_0;
                            assert(blf.array.seq1() == bl0.array.seq1());
                            assert(blf.array.seq2() == bl0.array.seq2().update(i as int, cf));
                            crate::rudymap::branch_linear::lemma_first_index_is(
                                blf.array.seq1(),
                                b,
                                i as int,
                            );
                            assert(chf(b) == Some(cf));
                            assert forall|x: u8| x != b implies #[trigger] chf(x) == ch0(x) by {
                                crate::rudymap::branch_linear::lemma_first_index(
                                    bl0.array.seq1(),
                                    x,
                                );
                                let fi = crate::rudymap::branch_linear::first_index(
                                    bl0.array.seq1(),
                                    x,
                                );
                                if fi >= 0 {
                                    assert(bl0.array.seq1()[fi] == x);
                                    assert(fi != i as int);
                                    assert(blf.array.seq2()[fi] == bl0.array.seq2()[fi]);
                                }
                            }
                            lemma_branch_update(ch0, chf, d, k, gv);
                            assert(node_view(nn, d) == branch_view(chf, d)) by {
                                lemma_branch_congruent(chf, |x: u8| branch_children(nn, x), d);
                            }
                            assert(node_view(nn, d) == m0.insert(k, gv));
                            assert(node_wf(nn, d)) by {
                                assert forall|j: int| 0 <= j < blf.array.seq2().len() implies ip_wf(
                                    #[trigger] blf.array.seq2()[j],
                                    dc,
                                ) by {
                                    if j != i as int {
                                        assert(blf.array.seq2()[j] == bl0.array.seq2()[j]);
                                    }
                                }
                            }
                            // the branch holds the key exactly when the
                            // child under its first byte held the rest
                            assert(m0.contains_key(k) == opt_view(ch0(b), dc).contains_key(
                                k.skip(1),
                            ));
                            if m0.contains_key(k) {
                                assert(m0[k] == opt_view(ch0(b), dc)[k.skip(1)]);
                            }
                        }
                        (nn, ev2)
                    },
                    Err(ins) => {
                        proof {
                            assert forall|j: int| 0 <= j < bl0.array.seq1().len() implies bl0.array.seq1()[j]
                                != b by {
                                if j >= ins {
                                    assert(ins < bl0.array.seq1().len());
                                }
                            }
                            crate::rudymap::branch_linear::lemma_first_index(bl0.array.seq1(), b);
                            assert(ch0(b) is None);
                            assert(!m0.contains_key(k));
                        }
                        if bl.array.len() == 7 {
                            let bb = bl.expand(Ghost((d - 1) as nat));
                            let mut bbx = bb;
                            let ghost bb0 = bbx;
                            proof {
                                let dc = (d - 1) as nat;
                                let ghost chb = |x: u8| bb0.child(x);
                                assert forall|x: u8|
                                    opt_view(#[trigger] chb(x), dc) == opt_view(ch0(x), dc) by {}
                                lemma_branch_congruent(ch0, chb, d);
                                assert(branch_view(chb, d) == m0);
                                assert(opt_view(chb(b), dc) == opt_view(ch0(b), dc));
                                assert(opt_view(chb(b), dc).len() == 0);
                                assert(b as int / 32 < 8);
                                assert(sub_wf(bb0.subexpanses@[b as int / 32], dc));
                            }
                            let se = &mut bbx.subexpanses[(b / 32) as usize];
                            let sr = se.insert(b % 32, bytes, at + 1, value);
                            let sev = sr.success();
                            proof {
                                assert(sev is None);
                            }
                            let ghost sef = *se;
                            let nn = Node::BranchBitmap(Box::new(bbx));
                            proof {
                                let dc = (d - 1) as nat;
                                let ghost chb = |x: u8| bb0.child(x);
                                let ghost chf = |x: u8| branch_children(nn, x);
                                let bbf = *nn->BranchBitmap_0;
                                assert(bbf.subexpanses@ == bb0.subexpanses@.update(
                                    b as int / 32,
                                    sef,
                                ));
                                assert(opt_view(chf(b), dc) == opt_view(chb(b), dc).insert(
                                    k.skip(1),
                                    gv,
                                ));
                                assert forall|x: u8| x != b implies opt_view(#[trigger] chf(x), dc)
                                    == opt_view(chb(x), dc) by {
                                    if x as int / 32 == b as int / 32 {
                                        if x % 32 == b % 32 {
                                            crate::rudymap::branch_bitmap::lemma_pos32_injective(
                                                x,
                                                b,
                                            );
                                        } else {
                                            assert(bbf.child(x) == bb0.child(x));
                                        }
                                    } else {
                                        assert(bbf.subexpanses@[x as int / 32]
                                            == bb0.subexpanses@[x as int / 32]);
                                    }
                                }
                                lemma_branch_update(chb, chf, d, k, gv);
                                assert(node_view(nn, d) == branch_view(chf, d)) by {
                                    lemma_branch_congruent(chf, |x: u8| branch_children(nn, x), d);
                                }
                                assert(node_view(nn, d) == m0.insert(k, gv));
                                assert(node_wf(nn, d)) by {
                                    assert forall|j: int| 0 <= j < 8 implies sub_wf(
                                        #[trigger] bbf.subexpanses@[j],
                                        dc,
                                    ) by {
                                        if j != b as int / 32 {
                                            assert(bbf.subexpanses@[j] == bb0.subexpanses@[j]);
                                        }
                                    }
                                }
                            }
                            (nn, sev)
                        } else {
                            let e0 = InnerPtr::empty();
                            let ghost ge0 = e0;
                            let ghost pre1 = bl.array.seq1();
                            let ghost pre2 = bl.array.seq2();
                            let ir = bl.array.insert(ins, b, e0);
                            proof {
                                assert(ir is Ok);
                                crate::rudymap::branch_linear::lemma_pair_child_insert(
                                    pre1,
                                    pre2,
                                    ins as int,
                                    b,
                                    ge0,
                                );
                            }
                            let ghost blm = *bl;
                            let child = bl.array.value_mut(ins);
                            proof {
                                assert(blm.array.seq2()[ins as int] == ge0);
                                assert((*child).node is Empty);
                                assert(ip_wf(*child, (d - 1) as nat));
                            }
                            let ev2 = child.insert(bytes, at + 1, value);
                            proof {
                                assert(ev2 is None);
                                assert(ip_view(*child, (d - 1) as nat) == Map::<
                                    Seq<u8>,
                                    V,
                                >::empty().insert(k.skip(1), gv));
                                assert(ip_wf(*child, (d - 1) as nat));
                            }
                            let ghost cf = *child;
                            let nn = Node::BranchLinear(bl);
                            proof {
                                let dc = (d - 1) as nat;
                                let ghost chm = |x: u8| blm.child(x);
                                let ghost chf = |x: u8| branch_children(nn, x);
                                // the fresh pair holds an empty child, so the
                                // reshaped table still holds the old entries
                                assert forall|x: u8|
                                    opt_view(#[trigger] chm(x), dc) == opt_view(ch0(x), dc) by {
                                    if x == b {
                                        assert(chm(b) == Some(ge0));
                                    }
                                }
                                lemma_branch_congruent(ch0, chm, d);
                                assert(branch_view(chm, d) == m0);
                                let blf = *nn->BranchLinear_0;
                                assert(blf.array.seq1() == blm.array.seq1());
                                assert(blf.array.seq2() == blm.array.seq2().update(
                                    ins as int,
                                    cf,
                                ));
                                assert(crate::rudymap::branch_linear::first_index(
                                    blm.array.seq1(),
                                    b,
                                ) == ins as int);
                                crate::rudymap::branch_linear::lemma_first_index_is(
                                    blf.array.seq1(),
                                    b,
                                    ins as int,
                                );
                                assert(chf(b) == Some(cf));
                                assert forall|x: u8| x != b implies opt_view(#[trigger] chf(x), dc)
                                    == opt_view(chm(x), dc) by {
                                    crate::rudymap::branch_linear::lemma_first_index(
                                        blf.array.seq1(),
                                        x,
                                    );
                                    let fi = crate::rudymap::branch_linear::first_index(
                                        blf.array.seq1(),
                                        x,
                                    );
                                    if fi >= 0 {
                                        assert(blf.array.seq1()[fi] == x);
                                        assert(fi != ins as int);
                                        assert(blf.array.seq2()[fi] == blm.array.seq2()[fi]);
                                        assert(chf(x) == Some(blm.array.seq2()[fi]));
                                        assert(chm(x) == Some(blm.array.seq2()[fi]));
                                    } else {
                                        assert(chf(x) is None);
                                        assert(chm(x) is None);
                                    }
                                }
                                lemma_branch_update(chm, chf, d, k, gv);
                                assert(node_view(nn, d) == branch_view(chf, d)) by {
                                    lemma_branch_congruent(chf, |x: u8| branch_children(nn, x), d);
                                }
                                assert(node_view(nn, d) == m0.insert(k, gv));
                                assert(node_wf(nn, d)) by {
                                    assert forall|i2: int, j2: int|
                                        0 <= i2 < j2 < blf.array.seq1().len() implies blf.array.seq1()[i2]
                                        < blf.array.seq1()[j2] by {
                                        let s1 = blm.array.seq1();
                                        assert(s1 == pre1.insert(ins as int, b));
                                        if i2 < ins && j2 < ins {
                                        } else if i2 < ins && j2 == ins {
                                            assert(s1[i2] == pre1[i2]);
                                        } else if i2 < ins && j2 > ins {
                                            assert(s1[i2] == pre1[i2] && s1[j2] == pre1[j2 - 1]);
                                        } else if i2 == ins {
                                            assert(s1[j2] == pre1[j2 - 1]);
                                        } else {
                                            assert(s1[i2] == pre1[i2 - 1] && s1[j2] == pre1[j2
                                                - 1]);
                                        }
                                    }
                                    assert forall|j2: int| 0 <= j2 < blf.array.seq2().len() implies ip_wf(
                                        #[trigger] blf.array.seq2()[j2],
                                        dc,
                                    ) by {
                                        if j2 != ins as int {
                                            assert(blf.array.seq2()[j2] == blm.array.seq2()[j2]);
                                            if j2 < ins as int {
                                                assert(blm.array.seq2()[j2] == pre2[j2]);
                                            } else {
                                                assert(blm.array.seq2()[j2] == pre2[j2 - 1]);
                                            }
                                        }
                                    }
                                }
                            }
                            (nn, ev2)
                        }
                    },
                }
            },
            Node::BranchBitmap(mut bb) => {
                let ghost bb0 = *bb;
                let ghost ch0 = |x: u8| bb0.child(x);
                let b = bytes[at];
                proof {
                    assert(d >= 2);
                    assert(m0 == branch_view(ch0, d)) by {
                        lemma_branch_congruent(|x: u8| branch_children(pre.node, x), ch0, d);
                    }
                    lemma_child_view_le(ch0, d, b);
                    assert(b as int / 32 < 8);
                    assert(sub_wf(bb0.subexpanses@[b as int / 32], (d - 1) as nat));
                }
                let se = &mut bb.subexpanses[(b / 32) as usize];
                let sr = se.insert(b % 32, bytes, at + 1, value);
                let ev2 = sr.success();
                let ghost sef = *se;
                let nn = Node::BranchBitmap(bb);
                proof {
                    let dc = (d - 1) as nat;
                    let ghost chf = |x: u8| branch_children(nn, x);
                    let bbf = *nn->BranchBitmap_0;
                    assert(bbf.subexpanses@ == bb0.subexpanses@.update(b as int / 32, sef));
                    assert(opt_view(chf(b), dc) == opt_view(ch0(b), dc).insert(k.skip(1), gv));
                    assert forall|x: u8| x != b implies opt_view(#[trigger] chf(x), dc) == opt_view(
                        ch0(x),
                        dc,
                    ) by {
                        if x as int / 32 == b as int / 32 {
                            if x % 32 == b % 32 {
                                crate::rudymap::branch_bitmap::lemma_pos32_injective(x, b);
                            } else {
                                assert(bbf.child(x) == bb0.child(x));
                            }
                        } else {
                            assert(bbf.subexpanses@[x as int / 32] == bb0.subexpanses@[x as int
                                / 32]);
                        }
                    }
                    lemma_branch_update(ch0, chf, d, k, gv);
                    assert(node_view(nn, d) == branch_view(chf, d)) by {
                        lemma_branch_congruent(chf, |x: u8| branch_children(nn, x), d);
                    }
                    assert(node_view(nn, d) == m0.insert(k, gv));
                    assert(node_wf(nn, d)) by {
                        assert forall|j: int| 0 <= j < 8 implies sub_wf(
                            #[trigger] bbf.subexpanses@[j],
                            dc,
                        ) by {
                            if j != b as int / 32 {
                                assert(bbf.subexpanses@[j] == bb0.subexpanses@[j]);
                            }
                        }
                    }
                    assert(m0.contains_key(k) == opt_view(ch0(b), dc).contains_key(k.skip(1)));
                    if m0.contains_key(k) {
                        assert(m0[k] == opt_view(ch0(b), dc)[k.skip(1)]);
                    }
                }
                (nn, ev2)
            },
            Node::BranchUncompressed(mut bu) => {
                let ghost bu0 = *bu;
                let ghost ch0 = |x: u8| bu0.child(x);
                let b = bytes[at];
                proof {
                    assert(d >= 2);
                    assert(m0 == branch_view(ch0, d)) by {
                        lemma_branch_congruent(|x: u8| branch_children(pre.node, x), ch0, d);
                    }
                    lemma_child_view_le(ch0, d, b);
                    assert(ip_wf(bu0.array@[b as int], (d - 1) as nat));
                }
                let child = &mut bu.array[b as usize];
                let ev2 = child.insert(bytes, at + 1, value);
                proof {
                    assert(ip_view(*child, (d - 1) as nat) == opt_view(
                        ch0(b),
                        (d - 1) as nat,
                    ).insert(k.skip(1), gv));
                    assert(ip_wf(*child, (d - 1) as nat));
                }
                let ghost cf = *child;
                let nn = Node::BranchUncompressed(bu);
                proof {
                    let dc = (d - 1) as nat;
                    let ghost chf = |x: u8| branch_children(nn, x);
                    let buf = *nn->BranchUncompressed_0;
                    assert(buf.array@ == bu0.array@.update(b as int, cf));
                    assert(chf(b) == Some(cf));
                    assert forall|x: u8| x != b implies #[trigger] chf(x) == ch0(x) by {
                        assert(buf.array@[x as int] == bu0.array@[x as int]);
                    }
                    lemma_branch_update(ch0, chf, d, k, gv);
                    assert(node_view(nn, d) == branch_view(chf, d)) by {
                        lemma_branch_congruent(chf, |x: u8| branch_children(nn, x), d);
                    }
                    assert(node_view(nn, d) == m0.insert(k, gv));
                    assert(node_wf(nn, d)) by {
                        assert forall|j: int| 0 <= j < 256 implies ip_wf(
                            #[trigger] buf.array@[j],
                            dc,
                        ) by {
                            if j != b as int {
                                assert(buf.array@[j] == bu0.array@[j]);
                            }
                        }
                    }
                    assert(m0.contains_key(k) == opt_view(ch0(b), dc).contains_key(k.skip(1)));
                    if m0.contains_key(k) {
                        assert(m0[k] == opt_view(ch0(b), dc)[k.skip(1)]);
                    }
                }
                (nn, ev2)
            },
        };
        let (nn, evicted) = pair;
        self.insert_finish(nn, evicted, Ghost(d), Ghost(k), Ghost(gv), Ghost(m0))
    }

    /// Mutably borrows the value under the remaining key bytes, which run
    /// from position `at` to the end of `bytes`; the borrow may overwrite
    /// the stored value in place, and the population is unchanged either
    /// way.
    pub fn get_mut(&mut self, bytes: &Vec<u8>, at: usize) -> (r: Option<&mut V>)
        requires
            at < bytes@.len(),
            bytes@.len() <= usize::MAX,
            ip_wf(*old(self), (bytes@.len() - at) as nat),
        ensures
            ({
                let d = (bytes@.len() - at) as nat;
                let k = bytes@.skip(at as int);
                let m = ip_view(*old(self), d);
                &&& (!m.contains_key(k) ==> {
                    &&& r is None
                    &&& ip_wf(*final(self), d)
                    &&& ip_view(*final(self), d) == m
                })
                &&& (m.contains_key(k) ==> {
                    &&& r is Some
                    &&& *r.unwrap() == m[k]
                    &&& ip_wf(*final(self), d)
                    &&& ip_view(*final(self), d) == m.insert(k, *final(r.unwrap()))
                })
            }),
        decreases bytes@.len() - at, 1int,
    {
        let ghost d = (bytes@.len() - at) as nat;
        let ghost k = bytes@.skip(at as int);
        let ghost pre = *self;
        let ghost m0 = ip_view(pre, d);
        proof {
            assert(k.len() == d);
            assert(k[0] == bytes@[at as int]);
            assert(k.skip(1) =~= bytes@.skip(at + 1 as int));
        }
        match &mut self.node {
            Node::Empty(_) => {
                proof {
                    let post = after_borrow(*self);
                    assert(post == pre);
                }
                None
            },
            Node::LeafBitmap(l) => {
                let b = bytes[at];
                proof {
                    assert(d == 1);
                    assert(k =~= seq![b]);
                }
                let r = l.get_mut(b);
                proof {
                    let post = after_borrow(*self);
                    let lf = after_borrow(*l);
                    assert(post.node == Node::LeafBitmap(lf));
                    assert(post.pop == pre.pop);
                    if m0.contains_key(k) {
                        let vf = *final(r.unwrap());
                        assert(ip_view(post, d) == m0.insert(k, vf));
                        assert(m0.insert(k, vf).dom() =~= m0.dom());
                    } else {
                        assert(ip_view(post, d) == m0);
                    }
                }
                r
            },
            Node::BranchLinear(bl) => {
                let b = bytes[at];
                let ghost bl0 = *bl;
                let ghost ch0 = |x: u8| bl0.child(x);
                proof {
                    assert(d >= 2);
                    bl0.array.lemma_wf();
                    assert(m0 == branch_view(ch0, d)) by {
                        lemma_branch_congruent(|x: u8| branch_children(pre.node, x), ch0, d);
                    }
                }
                match crate::util::linear_search(bl.array.array1(), &b) {
                    Ok(i) => {
                        proof {
                            crate::rudymap::branch_linear::lemma_first_index_is(
                                bl0.array.seq1(),
                                b,
                                i as int,
                            );
                            assert(ch0(b) == Some(bl0.array.seq2()[i as int]));
                            assert(ip_wf(bl0.array.seq2()[i as int], (d - 1) as nat));
                        }
                        let child = bl.array.value_mut(i);
                        let r = child.get_mut(bytes, at + 1);
                        proof {
                            let dc = (d - 1) as nat;
                            let cf = after_borrow(*child);
                            let blf = after_borrow(*bl);
                            let post = after_borrow(*self);
                            assert(post.node == Node::BranchLinear(blf));
                            assert(post.pop == pre.pop);
                            assert(blf.array.seq1() == bl0.array.seq1());
                            assert(blf.array.seq2() == bl0.array.seq2().update(i as int, cf));
                            let chf = |x: u8| blf.child(x);
                            crate::rudymap::branch_linear::lemma_first_index_is(
                                blf.array.seq1(),
                                b,
                                i as int,
                            );
                            assert(chf(b) == Some(cf));
                            assert forall|x: u8| x != b implies #[trigger] chf(x) == ch0(x) by {
                                crate::rudymap::branch_linear::lemma_first_index(
                                    bl0.array.seq1(),
                                    x,
                                );
                                let fi = crate::rudymap::branch_linear::first_index(
                                    bl0.array.seq1(),
                                    x,
                                );
                                if fi >= 0 {
                                    assert(bl0.array.seq1()[fi] == x);
                                    assert(fi != i as int);
                                    assert(blf.array.seq2()[fi] == bl0.array.seq2()[fi]);
                                }
                            }
                            assert(node_wf(post.node, d)) by {
                                assert forall|j: int| 0 <= j < blf.array.seq2().len() implies ip_wf(
                                    #[trigger] blf.array.seq2()[j],
                                    dc,
                                ) by {
                                    if j != i as int {
                                        assert(blf.array.seq2()[j] == bl0.array.seq2()[j]);
                                    }
                                }
                            }
                            assert(m0.contains_key(k) == opt_view(ch0(b), dc).contains_key(
                                k.skip(1),
                            ));
                            if m0.contains_key(k) {
                                let vf = *final(r.unwrap());
                                assert(m0[k] == opt_view(ch0(b), dc)[k.skip(1)]);
                                lemma_branch_update(ch0, chf, d, k, vf);
                                assert(ip_view(post, d) == branch_view(chf, d)) by {
                                    lemma_branch_congruent(
                                        chf,
                                        |x: u8| branch_children(post.node, x),
                                        d,
                                    );
                                }
                                assert(ip_view(post, d) == m0.insert(k, vf));
                                assert(m0.insert(k, vf).dom() =~= m0.dom());
                            } else {
                                assert(ip_view(cf, dc) == opt_view(ch0(b), dc));
                                lemma_branch_congruent(ch0, chf, d);
                                assert(ip_view(post, d) == branch_view(chf, d)) by {
                                    lemma_branch_congruent(
                                        chf,
                                        |x: u8| branch_children(post.node, x),
                                        d,
                                    );
                                }
                                assert(ip_view(post, d) == m0);
                            }
                        }
                        r
                    },
                    Err(i) => {
                        proof {
                            assert forall|j: int| 0 <= j < bl0.array.seq1().len() implies bl0.array.seq1()[j]
                                != b by {
                                if j >= i {
                                    assert(i < bl0.array.seq1().len());
                                }
                            }
                            crate::rudymap::branch_linear::lemma_first_index(bl0.array.seq1(), b);
                            assert(ch0(b) is None);
                            assert(!m0.contains_key(k));
                            let post = after_borrow(*self);
                            assert(post == pre);
                        }
                        None
                    },
                }
            },
            Node::BranchBitmap(bb) => {
                let b = bytes[at];
                let ghost bb0 = *bb;
                let ghost ch0 = |x: u8| bb0.child(x);
                proof {
                    assert(d >= 2);
                    assert(m0 == branch_view(ch0, d)) by {
                        lemma_branch_congruent(|x: u8| branch_children(pre.node, x), ch0, d);
                    }
                    assert(b as int / 32 < 8);
                    assert(sub_wf(bb0.subexpanses@[b as int / 32], (d - 1) as nat));
                }
                let se = &mut bb.subexpanses[(b / 32) as usize];
                let r = se.get_mut(b % 32, bytes, at + 1);
                proof {
                    let dc = (d - 1) as nat;
                    let sef = after_borrow(*se);
                    let bbf = after_borrow(*bb);
                    let post = after_borrow(*self);
                    assert(post.node == Node::BranchBitmap(bbf));
                    assert(post.pop == pre.pop);
                    assert(bbf.subexpanses@ == bb0.subexpanses@.update(b as int / 32, sef));
                    let chf = |x: u8| bbf.child(x);
                    assert(node_wf(post.node, d)) by {
                        assert forall|j: int| 0 <= j < 8 implies sub_wf(
                            #[trigger] bbf.subexpanses@[j],
                            dc,
                        ) by {
                            if j != b as int / 32 {
                                assert(bbf.subexpanses@[j] == bb0.subexpanses@[j]);
                            }
                        }
                    }
                    assert forall|x: u8| x != b implies opt_view(#[trigger] chf(x), dc) == opt_view(
                        ch0(x),
                        dc,
                    ) by {
                        if x as int / 32 == b as int / 32 {
                            if x % 32 == b % 32 {
                                crate::rudymap::branch_bitmap::lemma_pos32_injective(x, b);
                            } else {
                                assert(bbf.child(x) == sef.child(x % 32));
                                assert(bb0.child(x) == bb0.subexpanses@[b as int / 32].child(
                                    x % 32,
                                ));
                                assert(opt_view(sef.child(x % 32), dc) == opt_view(
                                    bb0.subexpanses@[b as int / 32].child(x % 32),
                                    dc,
                                ));
                            }
                        } else {
                            assert(bbf.subexpanses@[x as int / 32] == bb0.subexpanses@[x as int
                                / 32]);
                        }
                    }
                    assert(m0.contains_key(k) == opt_view(ch0(b), dc).contains_key(k.skip(1)));
                    if m0.contains_key(k) {
                        let vf = *final(r.unwrap());
                        assert(m0[k] == opt_view(ch0(b), dc)[k.skip(1)]);
                        assert(opt_view(chf(b), dc) == opt_view(ch0(b), dc).insert(
                            k.skip(1),
                            vf,
                        ));
                        lemma_branch_update(ch0, chf, d, k, vf);
                        assert(ip_view(post, d) == branch_view(chf, d)) by {
                            lemma_branch_congruent(chf, |x: u8| branch_children(post.node, x), d);
                        }
                        assert(ip_view(post, d) == m0.insert(k, vf));
                        assert(m0.insert(k, vf).dom() =~= m0.dom());
                    } else {
                        assert(opt_view(chf(b), dc) == opt_view(ch0(b), dc));
                        lemma_branch_congruent(ch0, chf, d);
                        assert(ip_view(post, d) == branch_view(chf, d)) by {
                            lemma_branch_congruent(chf, |x: u8| branch_children(post.node, x), d);
                        }
                        assert(ip_view(post, d) == m0);
                    }
                }
                r
            },
            Node::BranchUncompressed(bu) => {
                let b = bytes[at];
                let ghost bu0 = *bu;
                let ghost ch0 = |x: u8| bu0.child(x);
                proof {
                    assert(d >= 2);
                    assert(m0 == branch_view(ch0, d)) by {
                        lemma_branch_congruent(|x: u8| branch_children(pre.node, x), ch0, d);
                    }
                    assert(ip_wf(bu0.array@[b as int], (d - 1) as nat));
                }
                let child = &mut bu.array[b as usize];
                let r = child.get_mut(bytes, at + 1);
                proof {
                    let dc = (d - 1) as nat;
                    let cf = after_borrow(*child);
                    let buf = after_borrow(*bu);
                    let post = after_borrow(*self);
                    assert(post.node == Node::BranchUncompressed(buf));
                    assert(post.pop == pre.pop);
                    assert(buf.array@ == bu0.array@.update(b as int, cf));
                    let chf = |x: u8| buf.child(x);
                    assert(chf(b) == Some(cf));
                    assert forall|x: u8| x != b implies #[trigger] chf(x) == ch0(x) by {
                        assert(buf.array@[x as int] == bu0.array@[x as int]);
                    }
                    assert(node_wf(post.node, d)) by {
                        assert forall|j: int| 0 <= j < 256 implies ip_wf(
                            #[trigger] buf.array@[j],
                            dc,
                        ) by {
                            if j != b as int {
                                assert(buf.array@[j] == bu0.array@[j]);
                            }
                        }
                    }
                    assert(m0.contains_key(k) == opt_view(ch0(b), dc).contains_key(k.skip(1)));
                    if m0.contains_key(k) {
                        let vf = *final(r.unwrap());
                        assert(m0[k] == opt_view(ch0(b), dc)[k.skip(1)]);
                        lemma_branch_update(ch0, chf, d, k, vf);
                        assert(ip_view(post, d) == branch_view(chf, d)) by {
                            lemma_branch_congruent(chf, |x: u8| branch_children(post.node, x), d);
                        }
                        assert(ip_view(post, d) == m0.insert(k, vf));
                        assert(m0.insert(k, vf).dom() =~= m0.dom());
                    } else {
                        assert(ip_view(cf, dc) == opt_view(ch0(b), dc));
                        lemma_branch_congruent(ch0, chf, d);
                        assert(ip_view(post, d) == branch_view(chf, d)) by {
                            lemma_branch_congruent(chf, |x: u8| branch_children(post.node, x), d);
                        }
                        assert(ip_view(post, d) == m0);
                    }
                }
                r
            },
        }
    }

    /// Installs the rebuilt node and books the population change of one
    /// remove: down by one when a value came out, unchanged otherwise.
    fn remove_finish(
        &mut self,
        node: Node<V>,
        evicted: Option<V>,
        Ghost(d): Ghost<nat>,
        Ghost(k): Ghost<Seq<u8>>,
        Ghost(m0): Ghost<Map<Seq<u8>, V>>,
    ) -> (r: Option<V>)
        requires
            old(self).pop.wf(),
            old(self).pop.spec_val() == m0.len(),
            m0.dom().finite(),
            m0.len() < 0x100000000000000,
            m0.len() <= usize::MAX,
            node_wf(node, d),
            node_view(node, d) == m0.remove(k),
            evicted == (if m0.contains_key(k) {
                Some(m0[k])
            } else {
                None::<V>
            }),
        ensures
            ip_wf(*final(self), d),
            ip_view(*final(self), d) == m0.remove(k),
            r == evicted,
    {
        self.node = node;
        let cur = self.pop.as_usize();
        proof {
            assert(m0.remove(k).dom() == m0.dom().remove(k));
            if m0.contains_key(k) {
                vstd::set::axiom_set_contains_len(m0.dom(), k);
            } else {
                assert(m0.remove(k) =~= m0);
            }
        }
        match &evicted {
            Some(_) => {
                self.pop = Population::new(cur - 1);
            },
            None => {
            },
        }
        evicted
    }

    /// Removes the entry under the remaining key bytes, which run from
    /// position `at` to the end of `bytes`, and returns its value if the key
    /// was present.
    pub fn remove(&mut self, bytes: &Vec<u8>, at: usize) -> (r: Option<V>)
        requires
            at < bytes@.len(),
            bytes@.len() <= usize::MAX,
            ip_wf(*old(self), (bytes@.len() - at) as nat),
        ensures
            ({
                let d = (bytes@.len() - at) as nat;
                let k = bytes@.skip(at as int);
                let m = ip_view(*old(self), d);
                &&& ip_wf(*final(self), d)
                &&& ip_view(*final(self), d) == m.remove(k)
                &&& r == (if m.contains_key(k) {
                    Some(m[k])
                } else {
                    None::<V>
                })
            }),
        decreases bytes@.len() - at, 3int,
    {
        let ghost d = (bytes@.len() - at) as nat;
        let ghost k = bytes@.skip(at as int);
        let ghost pre = *self;
        let ghost m0 = ip_view(pre, d);
        proof {
            assert(k.len() == d);
            assert(k[0] == bytes@[at as int]);
            assert(k.skip(1) =~= bytes@.skip(at + 1 as int));
        }
        let mut node = Node::Empty(Empty::new());
        core::mem::swap(&mut self.node, &mut node);
        let pair: (Node<V>, Option<V>) = match node {
            Node::Empty(e) => {
                let nn = Node::Empty(e);
                proof {
                    assert(m0 == Map::<Seq<u8>, V>::empty());
                    assert(m0.remove(k) =~= m0);
                }
                (nn, None)
            },
            Node::LeafBitmap(mut l) => {
                let ghost l0 = *l;
                let b = bytes[at];
                let lr = l.remove(b);
                let lev = lr.success();
                let nn = Node::LeafBitmap(l);
                proof {
                    assert(d == 1);
                    assert(k =~= seq![b]);
                    assert(m0 == l0.as_map());
                    assert(node_view(nn, d) == m0.remove(k));
                }
                (nn, lev)
            },
            Node::BranchLinear(mut bl) => {
                let ghost bl0 = *bl;
                let ghost ch0 = |x: u8| bl0.child(x);
                let b = bytes[at];
                proof {
                    assert(d >= 2);
                    bl0.array.lemma_wf();
                    assert(m0 == branch_view(ch0, d)) by {
                        lemma_branch_congruent(|x: u8| branch_children(pre.node, x), ch0, d);
                    }
                }
                match crate::util::linear_search(bl.array.array1(), &b) {
                    Ok(i) => {
                        proof {
                            crate::rudymap::branch_linear::lemma_first_index_is(
                                bl0.array.seq1(),
                                b,
                                i as int,
                            );
                            assert(ch0(b) == Some(bl0.array.seq2()[i as int]));
                            assert(ip_wf(bl0.array.seq2()[i as int], (d - 1) as nat));
                        }
                        let child = bl.array.value_mut(i);
                        let ev2 = child.remove(bytes, at + 1);
                        proof {
                            assert(ip_view(*child, (d - 1) as nat) == opt_view(
                                ch0(b),
                                (d - 1) as nat,
                            ).remove(k.skip(1)));
                            assert(ip_wf(*child, (d - 1) as nat));
                        }
                        let ghost cf = *child;
                        let nn = Node::BranchLinear(bl);
                        proof {
                            let dc = (d - 1) as nat;
                            let ghost chf = |x: u8| branch_children(nn, x);
                            let blf = *nn->BranchLinear_0;
                            assert(blf.array.seq1() == bl0.array.seq1());
                            assert(blf.array.seq2() == bl0.array.seq2().update(i as int, cf));
                            crate::rudymap::branch_linear::lemma_first_index_is(
                                blf.array.seq1(),
                                b,
                                i as int,
                            );
                            assert(chf(b) == Some(cf));
                            assert forall|x: u8| x != b implies #[trigger] chf(x) == ch0(x) by {
                                crate::rudymap::branch_linear::lemma_first_index(
                                    bl0.array.seq1(),
                                    x,
                                );
                                let fi = crate::rudymap::branch_linear::first_index(
                                    bl0.array.seq1(),
                                    x,
                                );
                                if fi >= 0 {
                                    assert(bl0.array.seq1()[fi] == x);
                                    assert(fi != i as int);
                                    assert(blf.array.seq2()[fi] == bl0.array.seq2()[fi]);
                                }
                            }
                            lemma_branch_remove(ch0, chf, d, k);
                            assert(node_view(nn, d) == branch_view(chf, d)) by {
                                lemma_branch_congruent(chf, |x: u8| branch_children(nn, x), d);
                            }
                            assert(node_view(nn, d) == m0.remove(k));
                            assert(node_wf(nn, d)) by {
                                assert forall|j: int| 0 <= j < blf.array.seq2().len() implies ip_wf(
                                    #[trigger] blf.array.seq2()[j],
                                    dc,
                                ) by {
                                    if j != i as int {
                                        assert(blf.array.seq2()[j] == bl0.array.seq2()[j]);
                                    }
                                }
                            }
                            assert(m0.contains_key(k) == opt_view(ch0(b), dc).contains_key(
                                k.skip(1),
                            ));
                            if m0.contains_key(k) {
                                assert(m0[k] == opt_view(ch0(b), dc)[k.skip(1)]);
                            }
                        }
                        (nn, ev2)
                    },
                    Err(i) => {
                        proof {
                            assert forall|j: int| 0 <= j < bl0.array.seq1().len() implies bl0.array.seq1()[j]
                                != b by {
                                if j >= i {
                                    assert(i < bl0.array.seq1().len());
                                }
                            }
                            crate::rudymap::branch_linear::lemma_first_index(bl0.array.seq1(), b);
                            assert(ch0(b) is None);
                            assert(!m0.contains_key(k));
                        }
                        let nn = Node::BranchLinear(bl);
                        proof {
                            assert(nn == pre.node);
                            assert(m0.remove(k) =~= m0);
                        }
                        (nn, None)
                    },
                }
            },
            Node::BranchBitmap(mut bb) => {
                let ghost bb0 = *bb;
                let ghost ch0 = |x: u8| bb0.child(x);
                let b = bytes[at];
                proof {
                    assert(d >= 2);
                    assert(m0 == branch_view(ch0, d)) by {
                        lemma_branch_congruent(|x: u8| branch_children(pre.node, x), ch0, d);
                    }
                    assert(b as int / 32 < 8);
                    assert(sub_wf(bb0.subexpanses@[b as int / 32], (d - 1) as nat));
                }
                let se = &mut bb.subexpanses[(b / 32) as usize];
                let sr = se.remove(b % 32, bytes, at + 1);
                let ev2 = sr.success();
                let ghost sef = *se;
                let nn = Node::BranchBitmap(bb);
                proof {
                    let dc = (d - 1) as nat;
                    let ghost chf = |x: u8| branch_children(nn, x);
                    let bbf = *nn->BranchBitmap_0;
                    assert(bbf.subexpanses@ == bb0.subexpanses@.update(b as int / 32, sef));
                    assert(opt_view(chf(b), dc) == opt_view(ch0(b), dc).remove(k.skip(1)));
                    assert forall|x: u8| x != b implies opt_view(#[trigger] chf(x), dc) == opt_view(
                        ch0(x),
                        dc,
                    ) by {
                        if x as int / 32 == b as int / 32 {
                            if x % 32 == b % 32 {
                                crate::rudymap::branch_bitmap::lemma_pos32_injective(x, b);
                            } else {
                                assert(bbf.child(x) == bb0.child(x));
                            }
                        } else {
                            assert(bbf.subexpanses@[x as int / 32] == bb0.subexpanses@[x as int
                                / 32]);
                        }
                    }
                    lemma_branch_remove(ch0, chf, d, k);
                    assert(node_view(nn, d) == branch_view(chf, d)) by {
                        lemma_branch_congruent(chf, |x: u8| branch_children(nn, x), d);
                    }
                    assert(node_view(nn, d) == m0.remove(k));
                    assert(node_wf(nn, d)) by {
                        assert forall|j: int| 0 <= j < 8 implies sub_wf(
                            #[trigger] bbf.subexpanses@[j],
                            dc,
                        ) by {
                            if j != b as int / 32 {
                                assert(bbf.subexpanses@[j] == bb0.subexpanses@[j]);
                            }
                        }
                    }
                    assert(m0.contains_key(k) == opt_view(ch0(b), dc).contains_key(k.skip(1)));
                    if m0.contains_key(k) {
                        assert(m0[k] == opt_view(ch0(b), dc)[k.skip(1)]);
                    }
                }
                (nn, ev2)
            },
            Node::BranchUncompressed(mut bu) => {
                let ghost bu0 = *bu;
                let ghost ch0 = |x: u8| bu0.child(x);
                let b = bytes[at];
                proof {
                    assert(d >= 2);
                    assert(m0 == branch_view(ch0, d)) by {
                        lemma_branch_congruent(|x: u8| branch_children(pre.node, x), ch0, d);
                    }
                    assert(ip_wf(bu0.array@[b as int], (d - 1) as nat));
                }
                let child = &mut bu.array[b as usize];
                let ev2 = child.remove(bytes, at + 1);
                proof {
                    assert(ip_view(*child, (d - 1) as nat) == opt_view(
                        ch0(b),
                        (d - 1) as nat,
                    ).remove(k.skip(1)));
                    assert(ip_wf(*child, (d - 1) as nat));
                }
                let ghost cf = *child;
                let nn = Node::BranchUncompressed(bu);
                proof {
                    let dc = (d - 1) as nat;
                    let ghost chf = |x: u8| branch_children(nn, x);
                    let buf = *nn->BranchUncompressed_0;
                    assert(buf.array@ == bu0.array@.update(b as int, cf));
                    assert(chf(b) == Some(cf));
                    assert forall|x: u8| x != b implies #[trigger] chf(x) == ch0(x) by {
                        assert(buf.array@[x as int] == bu0.array@[x as int]);
                    }
                    lemma_branch_remove(ch0, chf, d, k);
                    assert(node_view(nn, d) == branch_view(chf, d)) by {
                        lemma_branch_congruent(chf, |x: u8| branch_children(nn, x), d);
                    }
                    assert(node_view(nn, d) == m0.remove(k));
                    assert(node_wf(nn, d)) by {
                        assert forall|j: int| 0 <= j < 256 implies ip_wf(
                            #[trigger] buf.array@[j],
                            dc,
                        ) by {
                            if j != b as int {
                                assert(buf.array@[j] == bu0.array@[j]);
                            }
                        }
                    }
                    assert(m0.contains_key(k) == opt_view(ch0(b), dc).contains_key(k.skip(1)));
                    if m0.contains_key(k) {
                        assert(m0[k] == opt_view(ch0(b), dc)[k.skip(1)]);
                    }
                }
                (nn, ev2)
            },
        };
        let (nn, evicted) = pair;
        self.remove_finish(nn, evicted, Ghost(d), Ghost(k), Ghost(m0))
    }

    /// Overwrites the population stored beside the node.
    pub fn set_population(&mut self, value: usize)
        requires
            (value as nat) < 0x100000000000000,
        ensures
            final(self).pop.wf(),
            final(self).pop.spec_val() == value,
            final(self).node == old(self).node,
    {
        self.pop = Population::new(value);
    }
}

} // verus!
