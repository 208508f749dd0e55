//! An in-memory 256-ary trie from byte keys to byte values, held as an arena
//! of nodes addressed by index. Node 0 is the root; a child always stands
//! after its parent, so a child index of 0 means "no child".

use vstd::prelude::*;
use crate::record::{
    apply, get_opt, last_write, lemma_get_opt_ext, lemma_last_write_concat,
    lemma_parse_records_bytes, lemma_records_bytes_concat, lemma_records_bytes_one,
    lemma_replay_get, map_fits, parse_records, push_record, records_bytes, records_fit, replay,
    KvMap,
};

verus! {

/// Number of child slots of a node: one per byte value.
pub const NODE_SIZE: usize = 256;

struct Node {
    children: Vec<usize>,
    value: Option<Vec<u8>>,
}

impl Node {
    fn empty() -> (r: Node)
        ensures
            r.children@ == Seq::new(NODE_SIZE as nat, |i: int| 0usize),
            r.value is None,
    {
        let children = vec![0usize; NODE_SIZE];
        assert(children@ =~= Seq::new(NODE_SIZE as nat, |i: int| 0usize));
        Node { children, value: None }
    }
}

impl Node {
    fn copy(&self) -> (r: Node)
        ensures
            r.children@ == self.children@,
            node_value(r) == node_value(*self),
    {
        let children = self.children.clone();
        assert(children@ =~= self.children@);
        let value = match &self.value {
            Some(v) => {
                let c = v.clone();
                assert(c@ =~= v@);
                Some(c)
            },
            None => None,
        };
        Node { children, value }
    }
}

/// The value a node holds, as a sequence.
spec fn node_value(n: Node) -> Option<Seq<u8>> {
    match n.value {
        Some(v) => Some(v@),
        None => None,
    }
}

/// A map from byte keys to byte values, one node per key prefix.
pub struct Trie {
    nodes: Vec<Node>,
    /// The key that leads from the root to each node.
    paths: Ghost<Seq<Seq<u8>>>,
}

/// The child of node `n` for byte `b` in an edge table, 0 for none.
spec fn step(e: Seq<Seq<usize>>, n: int, b: u8) -> int {
    e[n][b as int] as int
}

/// The node reached from node `n` by following the bytes of `s`.
spec fn walk(e: Seq<Seq<usize>>, n: int, s: Seq<u8>) -> Option<int>
    decreases s.len(),
{
    if s.len() == 0 {
        Some(n)
    } else if step(e, n, s[0]) == 0 {
        None
    } else {
        walk(e, step(e, n, s[0]), s.drop_first())
    }
}


/// Hanging a new empty node, numbered `e.len()`, under node `n` for byte `b`
/// changes where a walk ends only for walks that used to fall off at that slot.
proof fn lemma_grow(e: Seq<Seq<usize>>, e2: Seq<Seq<usize>>, n: int, b: u8, m: int, s: Seq<u8>)
    requires
        e2.len() == e.len() + 1,
        0 <= n < e.len(),
        step(e, n, b) == 0,
        step(e2, n, b) == e.len(),
        forall|x: int, c: u8|
            0 <= x < e.len() && (x != n || c != b) ==> #[trigger] step(e2, x, c) == step(e, x, c),
        forall|x: int, c: u8| 0 <= x < e.len() && step(e, x, c) != 0 ==> step(e, x, c) < e.len(),
        forall|c: u8| #[trigger] step(e2, e.len() as int, c) == 0,
        0 <= m < e.len(),
    ensures
        walk(e2, m, s) == walk(e, m, s) || (walk(e, m, s) is None && walk(e2, m, s) == Some(
            e.len() as int,
        )),
    decreases s.len(),
{
    if s.len() > 0 {
        let rest = s.drop_first();
        if m == n && s[0] == b {
            if rest.len() > 0 {
                assert(step(e2, e.len() as int, rest[0]) == 0);
                assert(walk(e2, e.len() as int, rest) is None);
            } else {
                assert(walk(e2, e.len() as int, rest) == Some(e.len() as int));
            }
        } else {
            assert(step(e2, m, s[0]) == step(e, m, s[0]));
            if step(e, m, s[0]) != 0 {
                lemma_grow(e, e2, n, b, step(e, m, s[0]), rest);
            }
        }
    }
}

impl Trie {
    /// The child table of each node.
    spec fn edges(self) -> Seq<Seq<usize>> {
        self.nodes@.map_values(|nd: Node| nd.children@)
    }

    spec fn child(self, n: int, b: u8) -> int {
        step(self.edges(), n, b)
    }

    spec fn walk(self, n: int, s: Seq<u8>) -> Option<int> {
        walk(self.edges(), n, s)
    }

    /// The value stored under `k`, if any.
    pub closed spec fn lookup(self, k: Seq<u8>) -> Option<Seq<u8>> {
        match self.walk(0, k) {
            Some(n) => node_value(self.nodes@[n]),
            None => None,
        }
    }

    /// The arena is well formed: the root is there, each node has a slot
    /// per byte, and each child comes after its parent with its parent's key
    /// extended by the child's byte.
    pub closed spec fn wf(self) -> bool {
        &&& self.nodes@.len() >= 1
        &&& self.paths@.len() == self.nodes@.len()
        &&& self.paths@[0] == Seq::<u8>::empty()
        &&& forall|n: int|
            0 <= n < self.nodes@.len() ==> #[trigger] self.nodes@[n].children@.len() == NODE_SIZE
        &&& forall|n: int, b: u8|
            0 <= n < self.nodes@.len() && #[trigger] self.child(n, b) != 0 ==> n < self.child(n, b)
                < self.nodes@.len() && self.paths@[self.child(n, b)] == self.paths@[n].push(b)
    }

    /// Every walk from a node ends on a node whose key extends the start's by the walked bytes.
    proof fn lemma_walk_path(self, n: int, s: Seq<u8>)
        requires
            self.wf(),
            0 <= n < self.nodes@.len(),
        ensures
            self.walk(n, s) matches Some(m) ==> 0 <= m < self.nodes@.len() && self.paths@[m]
                == self.paths@[n] + s,
        decreases s.len(),
    {
        if s.len() == 0 {
            assert(self.paths@[n] + s =~= self.paths@[n]);
        } else {
            let c = self.child(n, s[0]);
            if c != 0 {
                self.lemma_walk_path(c, s.drop_first());
                assert(self.paths@[n].push(s[0]) + s.drop_first() =~= self.paths@[n] + s);
            }
        }
    }

    /// Following `s` and then one more byte.
    proof fn lemma_walk_push(self, n: int, s: Seq<u8>, b: u8)
        ensures
            self.walk(n, s.push(b)) == (match self.walk(n, s) {
                Some(m) => if self.child(m, b) == 0 {
                    None
                } else {
                    Some(self.child(m, b))
                },
                None => None,
            }),
        decreases s.len(),
    {
        if s.len() == 0 {
            assert(s.push(b).drop_first() =~= Seq::<u8>::empty());
            assert(s.push(b)[0] == b);
            assert(self.walk(self.child(n, b), Seq::<u8>::empty()) == Some(self.child(n, b)));
        } else {
            assert(s.push(b)[0] == s[0]);
            assert(s.push(b).drop_first() =~= s.drop_first().push(b));
            if self.child(n, s[0]) != 0 {
                self.lemma_walk_push(self.child(n, s[0]), s.drop_first(), b);
            }
        }
    }
}

impl Trie {
    /// The entry of node `n` itself: none, or its key and value.
    spec fn own_entry(self, n: int) -> Seq<(Seq<u8>, Option<Seq<u8>>)> {
        match node_value(self.nodes@[n]) {
            Some(v) => seq![(self.paths@[n], Some(v))],
            None => Seq::empty(),
        }
    }

    /// The entries under node `n` in pre-order: the node's own value first,
    /// then the subtrees of its children by increasing byte.
    spec fn subtree(self, n: int) -> Seq<(Seq<u8>, Option<Seq<u8>>)>
        decreases self.nodes@.len() - n, 257int,
    {
        self.own_entry(n) + self.children_from(n, 0)
    }

    /// The entries under the children of node `n` for bytes `b` and above.
    spec fn children_from(self, n: int, b: int) -> Seq<(Seq<u8>, Option<Seq<u8>>)>
        decreases self.nodes@.len() - n, 256 - b,
    {
        if b < 0 || b >= 256 {
            Seq::empty()
        } else {
            let c = self.child(n, b as u8);
            if n < c && c < self.nodes@.len() {
                self.subtree(c) + self.children_from(n, b + 1)
            } else {
                self.children_from(n, b + 1)
            }
        }
    }

    /// Every entry of the trie, in lexicographic order of keys.
    pub closed spec fn entries(self) -> Seq<(Seq<u8>, Option<Seq<u8>>)> {
        self.subtree(0)
    }
}

/// `p` is a prefix of `k`.
spec fn is_prefix(p: Seq<u8>, k: Seq<u8>) -> bool {
    p.len() <= k.len() && k.subrange(0, p.len() as int) == p
}

/// `a` comes strictly before `b` in the lexicographic order of byte strings.
pub open spec fn lex_lt(a: Seq<u8>, b: Seq<u8>) -> bool
    decreases a.len(),
{
    if a.len() == 0 {
        b.len() > 0
    } else if b.len() == 0 {
        false
    } else if a[0] != b[0] {
        a[0] < b[0]
    } else {
        lex_lt(a.drop_first(), b.drop_first())
    }
}

/// The keys of `rs` are strictly increasing: no key repeats.
pub open spec fn keys_sorted(rs: Seq<(Seq<u8>, Option<Seq<u8>>)>) -> bool {
    forall|i: int, j: int| 0 <= i < j < rs.len() ==> lex_lt(#[trigger] rs[i].0, #[trigger] rs[j].0)
}

/// A proper prefix comes first.
proof fn lemma_lex_prefix(x: Seq<u8>, y: Seq<u8>)
    requires
        x.len() < y.len(),
        y.subrange(0, x.len() as int) == x,
    ensures
        lex_lt(x, y),
    decreases x.len(),
{
    if x.len() > 0 {
        assert(x[0] == y.subrange(0, x.len() as int)[0]);
        assert(y.drop_first().subrange(0, x.drop_first().len() as int) =~= x.drop_first()) by {
            assert forall|i: int| 0 <= i < x.len() - 1 implies y.drop_first()[i] == x.drop_first()[i] by {
                assert(y.subrange(0, x.len() as int)[i + 1] == y[i + 1]);
            }
        }
        lemma_lex_prefix(x.drop_first(), y.drop_first());
    }
}

/// Strings that agree up to `i` and differ there are ordered by that byte.
proof fn lemma_lex_diverge(x: Seq<u8>, y: Seq<u8>, i: int)
    requires
        0 <= i < x.len(),
        i < y.len(),
        x.subrange(0, i) == y.subrange(0, i),
        x[i] < y[i],
    ensures
        lex_lt(x, y),
    decreases i,
{
    if i > 0 {
        assert(x[0] == x.subrange(0, i)[0]);
        assert(y[0] == y.subrange(0, i)[0]);
        assert(x.drop_first().subrange(0, i - 1) =~= y.drop_first().subrange(0, i - 1)) by {
            assert forall|j: int| 0 <= j < i - 1 implies x.drop_first()[j] == y.drop_first()[j] by {
                assert(x.subrange(0, i)[j + 1] == x[j + 1]);
                assert(y.subrange(0, i)[j + 1] == y[j + 1]);
                assert(x.drop_first()[j] == x[j + 1]);
                assert(y.drop_first()[j] == y[j + 1]);
            }
        }
        lemma_lex_diverge(x.drop_first(), y.drop_first(), i - 1);
    }
}

/// Two sorted sequences, every key of the first before every key of the
/// second, laid end to end.
proof fn lemma_sorted_concat(
    a: Seq<(Seq<u8>, Option<Seq<u8>>)>,
    b: Seq<(Seq<u8>, Option<Seq<u8>>)>,
)
    requires
        keys_sorted(a),
        keys_sorted(b),
        forall|i: int, j: int| 0 <= i < a.len() && 0 <= j < b.len() ==> lex_lt(#[trigger] a[i].0, #[trigger] b[j].0),
    ensures
        keys_sorted(a + b),
{
    let ab = a + b;
    assert forall|i: int, j: int| 0 <= i < j < ab.len() implies lex_lt(#[trigger] ab[i].0, #[trigger] ab[j].0) by {
        if j < a.len() {
            assert(ab[i] == a[i] && ab[j] == a[j]);
        } else if i >= a.len() {
            assert(ab[i] == b[i - a.len()] && ab[j] == b[j - a.len()]);
        } else {
            assert(ab[i] == a[i] && ab[j] == b[j - a.len()]);
        }
    }
}

impl Trie {
    /// What the subtree of node `n` holds under the full key `k`: the value
    /// of the node that `k` reaches below `n`, if there is one.
    spec fn target(self, n: int, k: Seq<u8>) -> Option<Option<Seq<u8>>> {
        let p = self.paths@[n];
        if is_prefix(p, k) {
            match self.walk(n, k.subrange(p.len() as int, k.len() as int)) {
                Some(m) => match node_value(self.nodes@[m]) {
                    Some(v) => Some(Some(v)),
                    None => None,
                },
                None => None,
            }
        } else {
            None
        }
    }

    /// `k` lies strictly below node `n`, through a child of byte `b` or above.
    spec fn below(self, n: int, b: int, k: Seq<u8>) -> bool {
        let p = self.paths@[n];
        is_prefix(p, k) && k.len() > p.len() && k[p.len() as int] >= b
    }

    /// How the target of a node relates to that of its child for byte `b`.
    proof fn lemma_target_child(self, n: int, b: u8, k: Seq<u8>)
        requires
            self.wf(),
            0 <= n < self.nodes@.len(),
        ensures
            ({
                let p = self.paths@[n];
                let c = self.child(n, b);
                &&& (is_prefix(p, k) && k.len() > p.len() && k[p.len() as int] == b) ==> self.target(
                    n,
                    k,
                ) == if c != 0 {
                    self.target(c, k)
                } else {
                    None
                }
                &&& (c != 0 && !(is_prefix(p, k) && k.len() > p.len() && k[p.len() as int] == b))
                    ==> self.target(c, k) is None
            }),
    {
        let p = self.paths@[n];
        let c = self.child(n, b);
        if is_prefix(p, k) && k.len() > p.len() && k[p.len() as int] == b {
            let s = k.subrange(p.len() as int, k.len() as int);
            assert(s[0] == b);
            if c != 0 {
                assert(s.drop_first() =~= k.subrange(p.len() as int + 1, k.len() as int));
                assert(k.subrange(0, p.len() as int + 1) =~= p.push(b));
            }
        }
        if c != 0 && is_prefix(self.paths@[c], k) {
            assert(k.subrange(0, p.len() as int) =~= k.subrange(0, p.len() as int + 1).subrange(
                0,
                p.len() as int,
            ));
            assert(p.push(b).subrange(0, p.len() as int) =~= p);
            assert(k[p.len() as int] == k.subrange(0, p.len() as int + 1)[p.len() as int]);
        }
    }

    proof fn lemma_subtree_last_write(self, n: int, k: Seq<u8>)
        requires
            self.wf(),
            0 <= n < self.nodes@.len(),
        ensures
            last_write(self.subtree(n), k) == self.target(n, k),
        decreases self.nodes@.len() - n, 257int,
    {
        let p = self.paths@[n];
        let own = self.own_entry(n);
        self.lemma_children_last_write(n, 0, k);
        lemma_last_write_concat(own, self.children_from(n, 0), k);
        assert(self.subtree(n) == own + self.children_from(n, 0));
        if own.len() == 1 {
            assert(own.drop_first() =~= Seq::<(Seq<u8>, Option<Seq<u8>>)>::empty());
            assert(last_write(own.drop_first(), k) is None);
            assert(last_write(own, k) == if p == k {
                Some(own[0].1)
            } else {
                None
            });
        } else {
            assert(last_write(own, k) is None);
        }
        if is_prefix(p, k) && k.len() == p.len() {
            assert(k =~= p);
            assert(k.subrange(p.len() as int, k.len() as int) =~= Seq::<u8>::empty());
            assert(self.walk(n, Seq::<u8>::empty()) == Some(n));
        }
        if p == k {
            assert(k.subrange(0, p.len() as int) =~= p);
        }
    }

    proof fn lemma_children_last_write(self, n: int, b: int, k: Seq<u8>)
        requires
            self.wf(),
            0 <= n < self.nodes@.len(),
            0 <= b <= 256,
        ensures
            last_write(self.children_from(n, b), k) == if self.below(n, b, k) {
                self.target(n, k)
            } else {
                None
            },
        decreases self.nodes@.len() - n, 256 - b,
    {
        if b < 256 {
            let c = self.child(n, b as u8);
            self.lemma_children_last_write(n, b + 1, k);
            self.lemma_target_child(n, b as u8, k);
            if c != 0 {
                self.lemma_subtree_last_write(c, k);
                lemma_last_write_concat(self.subtree(c), self.children_from(n, b + 1), k);
            }
        } else {
            assert(self.children_from(n, b) =~= Seq::<(Seq<u8>, Option<Seq<u8>>)>::empty());
        }
    }

    proof fn lemma_subtree_agree(self, n: int)
        requires
            self.wf(),
            0 <= n < self.nodes@.len(),
        ensures
            forall|i: int|
                0 <= i < self.subtree(n).len() ==> self.target(n, #[trigger] self.subtree(n)[i].0)
                    == Some(self.subtree(n)[i].1),
        decreases self.nodes@.len() - n, 257int,
    {
        let p = self.paths@[n];
        let own = self.own_entry(n);
        let cs = self.children_from(n, 0);
        self.lemma_children_agree(n, 0);
        assert forall|i: int| 0 <= i < self.subtree(n).len() implies self.target(
            n,
            #[trigger] self.subtree(n)[i].0,
        ) == Some(self.subtree(n)[i].1) by {
            if i < own.len() {
                assert(p.subrange(0, p.len() as int) =~= p);
                assert(p.subrange(p.len() as int, p.len() as int) =~= Seq::<u8>::empty());
            } else {
                assert(self.subtree(n)[i] == cs[i - own.len()]);
            }
        }
    }

    proof fn lemma_children_agree(self, n: int, b: int)
        requires
            self.wf(),
            0 <= n < self.nodes@.len(),
            0 <= b <= 256,
        ensures
            forall|i: int|
                0 <= i < self.children_from(n, b).len() ==> self.below(
                    n,
                    b,
                    #[trigger] self.children_from(n, b)[i].0,
                ) && self.target(n, self.children_from(n, b)[i].0) == Some(
                    self.children_from(n, b)[i].1,
                ),
        decreases self.nodes@.len() - n, 256 - b,
    {
        if b < 256 {
            let c = self.child(n, b as u8);
            let cs = self.children_from(n, b);
            let rest = self.children_from(n, b + 1);
            self.lemma_children_agree(n, b + 1);
            if c != 0 {
                let sub = self.subtree(c);
                self.lemma_subtree_agree(c);
                assert forall|i: int| 0 <= i < cs.len() implies self.below(n, b, #[trigger] cs[i].0)
                    && self.target(n, cs[i].0) == Some(cs[i].1) by {
                    if i < sub.len() {
                        assert(cs[i] == sub[i]);
                        self.lemma_target_child(n, b as u8, cs[i].0);
                    } else {
                        assert(cs[i] == rest[i - sub.len()]);
                    }
                }
            }
        }
    }

    proof fn lemma_subtree_sorted(self, n: int)
        requires
            self.wf(),
            0 <= n < self.nodes@.len(),
        ensures
            keys_sorted(self.subtree(n)),
        decreases self.nodes@.len() - n, 257int,
    {
        let p = self.paths@[n];
        let own = self.own_entry(n);
        let cs = self.children_from(n, 0);
        self.lemma_children_sorted(n, 0);
        self.lemma_children_agree(n, 0);
        assert forall|i: int, j: int| 0 <= i < own.len() && 0 <= j < cs.len() implies lex_lt(
            #[trigger] own[i].0,
            #[trigger] cs[j].0,
        ) by {
            assert(self.below(n, 0, cs[j].0));
            lemma_lex_prefix(p, cs[j].0);
        }
        lemma_sorted_concat(own, cs);
    }

    proof fn lemma_children_sorted(self, n: int, b: int)
        requires
            self.wf(),
            0 <= n < self.nodes@.len(),
            0 <= b <= 256,
        ensures
            keys_sorted(self.children_from(n, b)),
        decreases self.nodes@.len() - n, 256 - b,
    {
        if b < 256 {
            let c = self.child(n, b as u8);
            let rest = self.children_from(n, b + 1);
            self.lemma_children_sorted(n, b + 1);
            if c != 0 {
                let p = self.paths@[n];
                let sub = self.subtree(c);
                self.lemma_subtree_sorted(c);
                self.lemma_subtree_agree(c);
                self.lemma_children_agree(n, b + 1);
                assert forall|i: int, j: int| 0 <= i < sub.len() && 0 <= j < rest.len() implies lex_lt(
                    #[trigger] sub[i].0,
                    #[trigger] rest[j].0,
                ) by {
                    let x = sub[i].0;
                    let y = rest[j].0;
                    assert(self.target(c, x) is Some);
                    assert(is_prefix(p.push(b as u8), x));
                    assert(self.below(n, b + 1, y));
                    assert(x.subrange(0, p.len() as int) =~= x.subrange(0, p.len() as int + 1).subrange(
                        0,
                        p.len() as int,
                    ));
                    assert(p.push(b as u8).subrange(0, p.len() as int) =~= p);
                    assert(x[p.len() as int] == x.subrange(0, p.len() as int + 1)[p.len() as int]);
                    lemma_lex_diverge(x, y, p.len() as int);
                }
                lemma_sorted_concat(sub, rest);
            }
        } else {
            assert(self.children_from(n, b) =~= Seq::<(Seq<u8>, Option<Seq<u8>>)>::empty());
        }
    }

    /// The entries of a trie come in strictly increasing order of keys.
    pub proof fn lemma_entries_sorted(self)
        requires
            self.wf(),
        ensures
            keys_sorted(self.entries()),
    {
        self.lemma_subtree_sorted(0);
    }

    /// The entries of a trie, replayed onto an empty map, give its map.
    pub proof fn lemma_entries_replay(self)
        requires
            self.wf(),
        ensures
            replay(Map::empty(), self.entries()) == self@,
    {
        assert forall|k: Seq<u8>| #[trigger] get_opt(replay(Map::empty(), self.entries()), k)
            == get_opt(self@, k) by {
            lemma_replay_get(Map::empty(), self.entries(), k);
            self.lemma_subtree_last_write(0, k);
            assert(k.subrange(0, 0) =~= Seq::<u8>::empty());
            assert(k.subrange(0, k.len() as int) =~= k);
        }
        lemma_get_opt_ext(replay(Map::empty(), self.entries()), self@);
    }

    /// Every entry of a trie whose keys and values fit a length field fits one too.
    pub proof fn lemma_entries_fit(self)
        requires
            self.wf(),
            map_fits(self@),
        ensures
            records_fit(self.entries()),
    {
        self.lemma_subtree_agree(0);
        let es = self.entries();
        assert forall|i: int| 0 <= i < es.len() implies #[trigger] es[i].0.len() <= 0x7fff
            && match es[i].1 {
            Some(v) => v.len() <= 0x7fff,
            None => true,
        } by {
            let k = es[i].0;
            assert(self.target(0, k) == Some(es[i].1));
            assert(k.subrange(0, 0) =~= Seq::<u8>::empty());
            assert(k.subrange(0, k.len() as int) =~= k);
            assert(self@.contains_key(k));
        }
    }
}

/// A snapshot of a store, read back and replayed onto an empty store, gives
/// that store again.
pub proof fn lemma_snapshot_restores(t: Trie)
    requires
        t.wf(),
        map_fits(t@),
    ensures
        replay(Map::empty(), parse_records(records_bytes(t.entries()))) == t@,
{
    t.lemma_entries_fit();
    lemma_parse_records_bytes(t.entries());
    t.lemma_entries_replay();
}

impl Clone for Trie {
    /// A deep copy: every node is copied, and the copy holds the same map.
    fn clone(&self) -> (r: Self)
        ensures
            self.wf() ==> r.wf() && r@ == self@,
    {
        let mut nodes: Vec<Node> = Vec::new();
        let mut i: usize = 0;
        while i < self.nodes.len()
            invariant
                i <= self.nodes@.len(),
                nodes@.len() == i,
                forall|j: int|
                    0 <= j < i ==> #[trigger] nodes@[j].children@ == self.nodes@[j].children@
                        && node_value(nodes@[j]) == node_value(self.nodes@[j]),
            decreases self.nodes@.len() - i,
        {
            nodes.push(self.nodes[i].copy());
            i = i + 1;
        }
        let ghost paths = self.paths@;
        let r = Trie { nodes, paths: Ghost(paths) };
        proof {
            if self.wf() {
                assert(r.edges() =~= self.edges()) by {
                    assert forall|j: int| 0 <= j < r.nodes@.len() implies r.edges()[j]
                        == self.edges()[j] by {
                        assert(r.edges()[j] == r.nodes@[j].children@);
                        assert(self.edges()[j] == self.nodes@[j].children@);
                    }
                }
                assert forall|n: int| 0 <= n < r.nodes@.len() implies #[trigger] r.nodes@[
                    n
                ].children@.len() == NODE_SIZE by {
                    assert(self.nodes@[n].children@.len() == NODE_SIZE);
                }
                assert forall|n: int, b: u8|
                    0 <= n < r.nodes@.len() && #[trigger] r.child(n, b) != 0 implies n < r.child(
                        n,
                        b,
                    ) < r.nodes@.len() && r.paths@[r.child(n, b)] == r.paths@[n].push(b) by {
                    assert(self.child(n, b) == r.child(n, b));
                }
                assert forall|k: Seq<u8>| #[trigger] r.lookup(k) == self.lookup(k) by {
                    assert(r.walk(0, k) == self.walk(0, k));
                    if let Some(m) = self.walk(0, k) {
                        self.lemma_walk_path(0, k);
                        assert(r.nodes@[m].children@ == self.nodes@[m].children@);
                    }
                }
                assert(r@ =~= self@);
            }
        }
        r
    }
}

impl View for Trie {
    type V = KvMap;

    closed spec fn view(&self) -> KvMap {
        Map::new(|k: Seq<u8>| self.lookup(k) is Some, |k: Seq<u8>| self.lookup(k).unwrap())
    }
}

impl Trie {
    /// An empty trie.
    pub fn new() -> (r: Trie)
        ensures
            r.wf(),
            r@ == Map::<Seq<u8>, Seq<u8>>::empty(),
    {
        let mut nodes: Vec<Node> = Vec::new();
        nodes.push(Node::empty());
        let ghost paths = seq![Seq::<u8>::empty()];
        let r = Trie { nodes, paths: Ghost(paths) };
        assert forall|n: int, b: u8| 0 <= n < r.nodes@.len() implies #[trigger] r.child(n, b) == 0 by {
        }
        assert(r.lookup(Seq::empty()) is None);
        assert forall|k: Seq<u8>| !(#[trigger] r.lookup(k) is Some) by {
            if k.len() > 0 {
                assert(r.child(0, k[0]) == 0);
            }
        }
        assert(r@ =~= Map::<Seq<u8>, Seq<u8>>::empty());
        r
    }

    /// The value stored under `key`, `None` if there is none.
    pub fn get(&self, key: Vec<u8>) -> (r: Option<Vec<u8>>)
        requires
            self.wf(),
        ensures
            match r {
                Some(v) => self@.contains_key(key@) && self@[key@] == v@,
                None => !self@.contains_key(key@),
            },
    {
        self.do_get(&key)
    }

    fn do_get(&self, key: &Vec<u8>) -> (r: Option<Vec<u8>>)
        requires
            self.wf(),
        ensures
            match r {
                Some(v) => self.lookup(key@) == Some(v@),
                None => self.lookup(key@) is None,
            },
    {
        let mut n: usize = 0;
        let mut i: usize = 0;
        assert(key@.subrange(0, key@.len() as int) =~= key@);
        while i < key.len()
            invariant
                self.wf(),
                n < self.nodes@.len(),
                i <= key@.len(),
                self.walk(0, key@) == self.walk(n as int, key@.subrange(i as int, key@.len() as int)),
            decreases key@.len() - i,
        {
            let c = self.nodes[n].children[key[i] as usize];
            assert(self.edges()[n as int] == self.nodes@[n as int].children@);
            assert(c == self.child(n as int, key@[i as int]));
            assert(key@.subrange(i as int, key@.len() as int).drop_first() =~= key@.subrange(
                i + 1,
                key@.len() as int,
            ));
            if c == 0 {
                return None;
            }
            n = c;
            i = i + 1;
        }
        match &self.nodes[n].value {
            Some(v) => {
                let out = v.clone();
                assert(out@ =~= v@);
                Some(out)
            },
            None => None,
        }
    }

    /// Stores `value` under `key`; `None` erases what was there.
    pub fn set(&mut self, key: Vec<u8>, value: Option<Vec<u8>>)
        requires
            old(self).wf(),
        ensures
            final(self).wf(),
            final(self)@ == apply(
                old(self)@,
                key@,
                match value {
                    Some(v) => Some(v@),
                    None => None,
                },
            ),
    {
        self.do_set(&key, value)
    }

    fn do_set(&mut self, key: &Vec<u8>, value: Option<Vec<u8>>)
        requires
            old(self).wf(),
        ensures
            final(self).wf(),
            forall|k: Seq<u8>|
                #[trigger] final(self).lookup(k) == if k == key@ {
                    match value {
                        Some(v) => Some(v@),
                        None => None,
                    }
                } else {
                    old(self).lookup(k)
                },
    {
        let mut n: usize = 0;
        let mut i: usize = 0;
        assert(key@.subrange(0, 0) =~= Seq::<u8>::empty());
        while i < key.len()
            invariant
                self.wf(),
                n < self.nodes@.len(),
                i <= key@.len(),
                self.walk(0, key@.subrange(0, i as int)) == Some(n as int),
                forall|k: Seq<u8>| #[trigger] self.lookup(k) == old(self).lookup(k),
            decreases key@.len() - i,
        {
            let b = key[i];
            let c = self.nodes[n].children[b as usize];
            assert(self.edges()[n as int] == self.nodes@[n as int].children@);
            assert(c == self.child(n as int, b));
            let next;
            if c == 0 {
                let ghost before = *self;
                let j = self.nodes.len();
                self.nodes.push(Node::empty());
                self.nodes[n].children[b as usize] = j;
                let ghost new_paths = before.paths@.push(before.paths@[n as int].push(b));
                self.paths = Ghost(new_paths);
                proof {
                    let e = before.edges();
                    let e2 = self.edges();
                    assert forall|x: int, c: u8|
                        0 <= x < e.len() && (x != n || c != b) implies #[trigger] step(e2, x, c)
                        == step(e, x, c) by {
                        assert(e2[x] == self.nodes@[x].children@);
                        assert(e[x] == before.nodes@[x].children@);
                    }
                    assert forall|c: u8| #[trigger] step(e2, e.len() as int, c) == 0 by {
                        assert(e2[e.len() as int] == self.nodes@[e.len() as int].children@);
                    }
                    assert(e2[n as int] == self.nodes@[n as int].children@);
                    assert forall|x: int, c: u8| 0 <= x < e.len() && step(e, x, c) != 0 implies step(
                        e,
                        x,
                        c,
                    ) < e.len() by {
                        assert(before.child(x, c) == step(e, x, c));
                    }
                    assert forall|k: Seq<u8>| #[trigger] self.lookup(k) == old(self).lookup(k) by {
                        lemma_grow(e, e2, n as int, b, 0, k);
                        assert(before.lookup(k) == old(self).lookup(k));
                        match walk(e, 0, k) {
                            Some(x) => {
                                before.lemma_walk_path(0, k);
                                assert(self.nodes@[x].value == before.nodes@[x].value);
                            },
                            None => {},
                        }
                    }
                    assert forall|x: int| 0 <= x < self.nodes@.len() implies #[trigger] self.nodes@[
                        x
                    ].children@.len() == NODE_SIZE by {
                        if x < before.nodes@.len() {
                            assert(before.nodes@[x].children@.len() == NODE_SIZE);
                        }
                    }
                    assert forall|x: int, c: u8|
                        0 <= x < self.nodes@.len() && #[trigger] self.child(x, c) != 0 implies x
                        < self.child(x, c) < self.nodes@.len() && self.paths@[self.child(x, c)]
                        == self.paths@[x].push(c) by {
                        if x != n || c != b {
                            assert(x < before.nodes@.len());
                            assert(before.child(x, c) == self.child(x, c));
                        }
                    }
                }
                proof {
                    lemma_grow(before.edges(), self.edges(), n as int, b, 0, key@.subrange(0, i as int));
                }
                next = j;
            } else {
                next = c;
            }
            proof {
                assert(self.edges()[n as int] == self.nodes@[n as int].children@);
                assert(self.child(n as int, b) == next as int);
                self.lemma_walk_push(0, key@.subrange(0, i as int), b);
                assert(key@.subrange(0, i as int).push(b) =~= key@.subrange(0, i + 1));
            }
            n = next;
            i = i + 1;
        }
        let ghost before = *self;
        assert(key@.subrange(0, key@.len() as int) =~= key@);
        self.nodes[n].value = value;
        proof {
            assert(self.edges() =~= before.edges()) by {
                assert forall|x: int| 0 <= x < self.nodes@.len() implies self.edges()[x]
                    == before.edges()[x] by {
                    assert(self.edges()[x] == self.nodes@[x].children@);
                    assert(before.edges()[x] == before.nodes@[x].children@);
                }
            }
            assert forall|k: Seq<u8>| #[trigger] self.lookup(k) == if k == key@ {
                match value {
                    Some(v) => Some(v@),
                    None => None,
                }
            } else {
                old(self).lookup(k)
            } by {
                assert(before.lookup(k) == old(self).lookup(k));
                before.lemma_walk_path(0, key@);
                if let Some(x) = walk(before.edges(), 0, k) {
                    before.lemma_walk_path(0, k);
                    assert(Seq::<u8>::empty() + k =~= k);
                    assert(Seq::<u8>::empty() + key@ =~= key@);
                }
            }
            assert forall|x: int| 0 <= x < self.nodes@.len() implies #[trigger] self.nodes@[
                x
            ].children@.len() == NODE_SIZE by {
                assert(before.nodes@[x].children@.len() == NODE_SIZE);
            }
            assert forall|x: int, c: u8|
                0 <= x < self.nodes@.len() && #[trigger] self.child(x, c) != 0 implies x
                < self.child(x, c) < self.nodes@.len() && self.paths@[self.child(x, c)]
                == self.paths@[x].push(c) by {
                assert(before.child(x, c) == self.child(x, c));
            }
        }
    }

    /// The snapshot of the trie: one record per stored value, keys in
    /// lexicographic order, no tombstones. Read back and replayed onto an
    /// empty store, it gives this store again.
    pub fn save(&self) -> (r: Vec<u8>)
        requires
            self.wf(),
        ensures
            r@ == records_bytes(self.entries()),
            keys_sorted(self.entries()),
            forall|i: int| 0 <= i < self.entries().len() ==> (#[trigger] self.entries()[i]).1 is Some,
            replay(Map::empty(), self.entries()) == self@,
            map_fits(self@) ==> replay(Map::empty(), parse_records(r@)) == self@,
    {
        proof {
            self.lemma_entries_sorted();
            self.lemma_entries_replay();
            self.lemma_subtree_agree(0);
            assert forall|i: int| 0 <= i < self.entries().len() implies (
            #[trigger] self.entries()[i]).1 is Some by {
                assert(self.target(0, self.entries()[i].0) == Some(self.entries()[i].1));
            }
            if map_fits(self@) {
                lemma_snapshot_restores(*self);
            }
        }
        let mut key: Vec<u8> = Vec::new();
        let mut out: Vec<u8> = Vec::new();
        assert(key@ =~= self.paths@[0]);
        self.do_save(0, &mut key, &mut out);
        assert(out@ =~= records_bytes(self.entries()));
        out
    }

    fn do_save(&self, n: usize, key: &mut Vec<u8>, out: &mut Vec<u8>)
        requires
            self.wf(),
            n < self.nodes@.len(),
            old(key)@ == self.paths@[n as int],
        ensures
            final(key)@ == old(key)@,
            final(out)@ == old(out)@ + records_bytes(self.subtree(n as int)),
        decreases self.nodes@.len() - n, 257int,
    {
        let ghost start = out@;
        let ghost own = self.own_entry(n as int);
        match &self.nodes[n].value {
            Some(v) => {
                push_record(out, key.as_slice(), Some(v.as_slice()));
                proof {
                    lemma_records_bytes_one(own[0]);
                }
            },
            None => {
                assert(records_bytes(own) =~= Seq::<u8>::empty());
                assert(out@ =~= start + records_bytes(own));
            },
        }
        proof {
            lemma_records_bytes_concat(own, self.children_from(n as int, 0));
            assert(out@ == start + records_bytes(own));
            assert(start + records_bytes(self.subtree(n as int)) =~= out@ + records_bytes(
                self.children_from(n as int, 0),
            ));
        }
        let mut b: usize = 0;
        while b < NODE_SIZE
            invariant
                self.wf(),
                n < self.nodes@.len(),
                b <= NODE_SIZE,
                key@ == self.paths@[n as int],
                start + records_bytes(self.subtree(n as int)) == out@ + records_bytes(
                    self.children_from(n as int, b as int),
                ),
            decreases NODE_SIZE - b,
        {
            let c = self.nodes[n].children[b];
            assert(self.edges()[n as int] == self.nodes@[n as int].children@);
            assert(c == self.child(n as int, b as u8));
            let ghost out0 = out@;
            if c != 0 {
                key.push(b as u8);
                self.do_save(c, key, out);
                key.pop();
                proof {
                    lemma_records_bytes_concat(
                        self.subtree(c as int),
                        self.children_from(n as int, b + 1),
                    );
                }
                assert(out0 + records_bytes(self.children_from(n as int, b as int)) =~= out@
                    + records_bytes(self.children_from(n as int, b + 1)));
            }
            b = b + 1;
        }
        assert(records_bytes(self.children_from(n as int, 256)) =~= Seq::<u8>::empty());
        assert(out@ =~= out@ + records_bytes(self.children_from(n as int, 256)));
    }
}

} // verus!
