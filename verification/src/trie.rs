//! Reverse trie over trigger keys.
//!
//! Node `i` spells a text `paths[i]` (ghost); a child edge labelled `c`
//! leads to the node spelling `c` followed by the parent's text, so walking
//! from the root reads a key from its last character backwards. Each node
//! lists, in increasing order, the indices of the keys equal to its text.

use std::collections::HashMap;

use vstd::prelude::*;

verus! {

broadcast use vstd::std_specs::hash::group_hash_axioms;

/// One trie node: children by character (as `u32`) and the indices of the
/// keys that end here.
pub struct TrieNode {
    pub children: HashMap<u32, usize>,
    pub terminals: Vec<usize>,
}

impl TrieNode {
    pub fn new() -> (n: TrieNode)
        ensures
            n.children@ == Map::<u32, usize>::empty(),
            n.terminals@ == Seq::<usize>::empty(),
    {
        TrieNode { children: HashMap::new(), terminals: Vec::new() }
    }
}

/// Key `k` belongs to this trie and has been inserted (`k < count`).
pub open spec fn member(inc: Seq<bool>, k: int, count: int) -> bool {
    0 <= k < count && k < inc.len() && inc[k]
}

/// `a` is a proper suffix of `b`.
pub open spec fn proper_suffix(a: Seq<char>, b: Seq<char>) -> bool {
    a.len() < b.len() && b.subrange(b.len() - a.len(), b.len() as int) == a
}

/// The character of `b` just before its suffix `a`.
pub open spec fn next_char(a: Seq<char>, b: Seq<char>) -> char {
    b[b.len() - a.len() - 1]
}

/// The child edge `c` of node `i` leads to a node spelling `c` + `p[i]`.
pub open spec fn child_ok(t: Seq<TrieNode>, p: Seq<Seq<char>>, i: int, c: u32) -> bool {
    let j = t[i].children@[c] as int;
    &&& 0 <= j < t.len()
    &&& p[j].len() == p[i].len() + 1
    &&& p[j][0] as u32 == c
    &&& p[j].drop_first() == p[i]
}

/// The terminals of a node spelling `path`: increasing, members whose key
/// is `path`, and all of them.
pub open spec fn terminals_ok(
    ts: Seq<usize>,
    path: Seq<char>,
    keys: Seq<Seq<char>>,
    inc: Seq<bool>,
    count: int,
) -> bool {
    &&& forall|x: int, y: int| 0 <= x < y < ts.len() ==> #[trigger] ts[x] < #[trigger] ts[y]
    &&& forall|x: int|
        0 <= x < ts.len() ==> member(inc, #[trigger] ts[x] as int, count) && keys[ts[x] as int]
            == path
    &&& forall|k: int| member(inc, k, count) && #[trigger] keys[k] == path ==> ts.contains(k as usize)
}

/// The trie holds exactly the member keys among the first `count`.
pub open spec fn trie_wf(
    t: Seq<TrieNode>,
    p: Seq<Seq<char>>,
    keys: Seq<Seq<char>>,
    inc: Seq<bool>,
    count: int,
) -> bool {
    &&& t.len() == p.len()
    &&& t.len() >= 1
    &&& p[0].len() == 0
    &&& forall|i: int, c: u32|
        0 <= i < t.len() && #[trigger] t[i].children@.contains_key(c) ==> child_ok(t, p, i, c)
    &&& forall|i: int, k: int|
        0 <= i < t.len() && member(inc, k, count) && #[trigger] proper_suffix(p[i], keys[k])
            ==> t[i].children@.contains_key(next_char(p[i], keys[k]) as u32)
    &&& forall|i: int|
        0 <= i < t.len() ==> terminals_ok(#[trigger] t[i].terminals@, p[i], keys, inc, count)
}

/// While building: texts are distinct and each non-root node hangs under
/// the node spelling its text without the first character.
pub open spec fn build_ok(t: Seq<TrieNode>, p: Seq<Seq<char>>, par: Seq<int>) -> bool {
    &&& par.len() == t.len()
    &&& t.len() == p.len()
    &&& forall|i: int, j: int| 0 <= i < p.len() && 0 <= j < p.len() && i != j ==> #[trigger] p[i]
        != #[trigger] p[j]
    &&& forall|j: int| 1 <= j < t.len() ==> parent_ok(t, p, par, j)
}

/// Node `j` hangs under node `par[j]` by the edge of its first character.
pub open spec fn parent_ok(t: Seq<TrieNode>, p: Seq<Seq<char>>, par: Seq<int>, j: int) -> bool {
    let q = par[j];
    &&& 0 <= q < t.len()
    &&& p[j].len() >= 1
    &&& t[q].children@.contains_key(p[j][0] as u32)
    &&& t[q].children@[p[j][0] as u32] == j
    &&& p[q] == p[j].drop_first()
}

/// An empty trie: the root alone.
pub fn new_trie() -> (r: (Vec<TrieNode>, Ghost<Seq<Seq<char>>>, Ghost<Seq<int>>))
    ensures
        forall|keys: Seq<Seq<char>>, inc: Seq<bool>| trie_wf(r.0@, r.1@, keys, inc, 0),
        build_ok(r.0@, r.1@, r.2@),
        r.0@.len() == 1,
{
    let mut t: Vec<TrieNode> = Vec::new();
    t.push(TrieNode::new());
    let ghost p = seq![Seq::<char>::empty()];
    let ghost par = seq![0int];
    assert forall|keys: Seq<Seq<char>>, inc: Seq<bool>| trie_wf(t@, p, keys, inc, 0) by {
        assert forall|i: int| 0 <= i < t@.len() implies terminals_ok(
            #[trigger] t@[i].terminals@,
            p[i],
            keys,
            inc,
            0,
        ) by {
            assert(t@[i].terminals@.len() == 0);
        }
    }
    (t, Ghost(p), Ghost(par))
}

pub proof fn lemma_char_code(a: char, b: char)
    requires
        a as u32 == b as u32,
    ensures
        a == b,
{
}

/// A key outside this trie leaves it unchanged as the count grows.
pub proof fn lemma_skip(t: Seq<TrieNode>, p: Seq<Seq<char>>, keys: Seq<Seq<char>>, inc: Seq<bool>, idx: int)
    requires
        trie_wf(t, p, keys, inc, idx),
        0 <= idx < inc.len(),
        !inc[idx],
    ensures
        trie_wf(t, p, keys, inc, idx + 1),
{
    assert forall|k: int| member(inc, k, idx + 1) <==> member(inc, k, idx) by {}
    assert forall|i: int| 0 <= i < t.len() implies terminals_ok(
        #[trigger] t[i].terminals@,
        p[i],
        keys,
        inc,
        idx + 1,
    ) by {
        assert(terminals_ok(t[i].terminals@, p[i], keys, inc, idx));
    }
}

/// Adding a node for `c` + `p[node]` under `node`, where `node` had no
/// child `c`, keeps the trie well formed.
proof fn lemma_add_node(
    t0: Seq<TrieNode>,
    p0: Seq<Seq<char>>,
    par0: Seq<int>,
    t1: Seq<TrieNode>,
    p1: Seq<Seq<char>>,
    par1: Seq<int>,
    node: int,
    c: char,
    keys: Seq<Seq<char>>,
    inc: Seq<bool>,
    count: int,
)
    requires
        trie_wf(t0, p0, keys, inc, count),
        build_ok(t0, p0, par0),
        0 <= node < t0.len(),
        t0.len() < usize::MAX,
        !t0[node].children@.contains_key(c as u32),
        t1.len() == t0.len() + 1,
        forall|i: int| 0 <= i < t0.len() && i != node ==> t1[i] == t0[i],
        t1[node].children@ == t0[node].children@.insert(c as u32, t0.len() as usize),
        t1[node].terminals@ == t0[node].terminals@,
        t1[t0.len() as int].children@ == Map::<u32, usize>::empty(),
        t1[t0.len() as int].terminals@ == Seq::<usize>::empty(),
        p1 == p0.push(seq![c] + p0[node]),
        par1 == par0.push(node),
    ensures
        trie_wf(t1, p1, keys, inc, count),
        build_ok(t1, p1, par1),
{
    let j = t0.len() as int;
    let np = seq![c] + p0[node];
    assert(np.drop_first() =~= p0[node]);
    assert(np[0] == c);
    assert forall|i: int| 0 <= i < t0.len() implies p1[i] == p0[i] by {}
    assert(p1[j] == np);
    // a member key never has `np` as a suffix (or equal)
    assert forall|k: int|
        member(inc, k, count) implies !(keys[k] == np) && !proper_suffix(np, keys[k]) by {
        let kk = keys[k];
        if kk == np {
            assert(proper_suffix(p0[node], kk)) by {
                assert(kk.subrange(kk.len() - p0[node].len(), kk.len() as int) =~= p0[node]);
            }
            assert(next_char(p0[node], kk) == c);
            assert(t0[node].children@.contains_key(next_char(p0[node], kk) as u32));
        }
        if proper_suffix(np, kk) {
            let m = p0[node].len();
            assert(proper_suffix(p0[node], kk)) by {
                assert(kk.subrange(kk.len() - m, kk.len() as int) =~= kk.subrange(
                    kk.len() - (m + 1),
                    kk.len() as int,
                ).drop_first());
            }
            assert(next_char(p0[node], kk) == kk.subrange(kk.len() - (m + 1), kk.len() as int)[0]);
            assert(t0[node].children@.contains_key(next_char(p0[node], kk) as u32));
        }
    }
    // child edges
    assert forall|i: int, cc: u32|
        0 <= i < t1.len() && #[trigger] t1[i].children@.contains_key(cc) implies child_ok(
        t1,
        p1,
        i,
        cc,
    ) by {
        if i == j {
        } else if i == node && cc == c as u32 {
            assert(t1[i].children@[cc] == j);
        } else {
            assert(t0[i].children@.contains_key(cc));
            assert(t1[i].children@[cc] == t0[i].children@[cc]);
            assert(child_ok(t0, p0, i, cc));
        }
    }
    // completeness of edges
    assert forall|i: int, k: int|
        0 <= i < t1.len() && member(inc, k, count) && #[trigger] proper_suffix(
            p1[i],
            keys[k],
        ) implies t1[i].children@.contains_key(next_char(p1[i], keys[k]) as u32) by {
        if i == j {
            assert(!proper_suffix(np, keys[k]));
        } else {
            assert(t0[i].children@.contains_key(next_char(p0[i], keys[k]) as u32));
        }
    }
    // terminals
    assert forall|i: int| 0 <= i < t1.len() implies terminals_ok(
        #[trigger] t1[i].terminals@,
        p1[i],
        keys,
        inc,
        count,
    ) by {
        if i == j {
            assert forall|k: int| member(inc, k, count) && #[trigger] keys[k] == p1[i] implies t1[
                i].terminals@.contains(k as usize) by {
                assert(!(keys[k] == np));
            }
        } else {
            assert(terminals_ok(t0[i].terminals@, p0[i], keys, inc, count));
        }
    }
    // distinct texts
    assert forall|a: int, b: int|
        0 <= a < p1.len() && 0 <= b < p1.len() && a != b implies #[trigger] p1[a]
        != #[trigger] p1[b] by {
        if a == j || b == j {
            let m = if a == j {
                b
            } else {
                a
            };
            if p1[m] == np {
                if m == 0 {
                    assert(p0[0].len() == 0);
                } else {
                    assert(parent_ok(t0, p0, par0, m));
                    let q = par0[m];
                    assert(p0[q] == p0[node]);
                    assert(q == node);
                    assert(p0[m][0] == c);
                }
            }
        }
    }
    // parents
    assert forall|m: int| 1 <= m < t1.len() implies parent_ok(t1, p1, par1, m) by {
        if m == j {
            assert(par1[m] == node);
            assert(np[0] as u32 == c as u32);
        } else {
            assert(parent_ok(t0, p0, par0, m));
            let q = par0[m];
            if q == node {
                assert(p0[m][0] as u32 != c as u32);
            }
        }
    }
}

/// Recording key `idx` at the node spelling it, once every proper suffix of
/// the key has its edge, keeps the trie well formed with one more key.
proof fn lemma_add_terminal(
    t0: Seq<TrieNode>,
    t1: Seq<TrieNode>,
    p: Seq<Seq<char>>,
    par: Seq<int>,
    node: int,
    keys: Seq<Seq<char>>,
    inc: Seq<bool>,
    idx: int,
)
    requires
        trie_wf(t0, p, keys, inc, idx),
        build_ok(t0, p, par),
        0 <= node < t0.len(),
        0 <= idx < keys.len(),
        idx < inc.len(),
        idx < usize::MAX,
        inc[idx],
        p[node] == keys[idx],
        forall|i: int|
            0 <= i < t0.len() && #[trigger] proper_suffix(p[i], keys[idx]) ==> t0[i].children@.contains_key(
                next_char(p[i], keys[idx]) as u32,
            ),
        t1.len() == t0.len(),
        forall|i: int| 0 <= i < t0.len() && i != node ==> t1[i] == t0[i],
        t1[node].children@ == t0[node].children@,
        t1[node].terminals@ == t0[node].terminals@.push(idx as usize),
    ensures
        trie_wf(t1, p, keys, inc, idx + 1),
        build_ok(t1, p, par),
{
    assert forall|k: int| member(inc, k, idx + 1) <==> (member(inc, k, idx) || k == idx) by {}
    assert forall|m: int| 1 <= m < t1.len() implies parent_ok(t1, p, par, m) by {
        assert(parent_ok(t0, p, par, m));
        assert(t1[par[m]].children@ == t0[par[m]].children@);
    }
    assert forall|i: int, cc: u32|
        0 <= i < t1.len() && #[trigger] t1[i].children@.contains_key(cc) implies child_ok(
        t1,
        p,
        i,
        cc,
    ) by {
        assert(child_ok(t0, p, i, cc));
    }
    assert forall|i: int| 0 <= i < t1.len() implies terminals_ok(
        #[trigger] t1[i].terminals@,
        p[i],
        keys,
        inc,
        idx + 1,
    ) by {
        let ts0 = t0[i].terminals@;
        assert(terminals_ok(ts0, p[i], keys, inc, idx));
        if i == node {
            let ts1 = t1[i].terminals@;
            assert forall|x: int, y: int| 0 <= x < y < ts1.len() implies #[trigger] ts1[x]
                < #[trigger] ts1[y] by {
                if y == ts0.len() {
                    assert(member(inc, ts0[x] as int, idx));
                }
            }
            assert forall|k: int| member(inc, k, idx + 1) && #[trigger] keys[k] == p[i] implies ts1.contains(
                k as usize,
            ) by {
                if k == idx {
                    assert(ts1[ts0.len() as int] == idx as usize);
                } else {
                    assert(ts0.contains(k as usize));
                    let x = choose|x: int| 0 <= x < ts0.len() && ts0[x] == k as usize;
                    assert(ts1[x] == k as usize);
                }
            }
        } else {
            assert forall|k: int| member(inc, k, idx + 1) && #[trigger] keys[k] == p[i] implies t1[
                i].terminals@.contains(k as usize) by {
                if k == idx {
                    assert(p[i] == p[node]);
                }
            }
        }
    }
}

/// Inserts key `idx` (a member of this trie) and returns the new texts and
/// parents.
pub fn insert_key(
    trie: &mut Vec<TrieNode>,
    Ghost(p0): Ghost<Seq<Seq<char>>>,
    Ghost(par0): Ghost<Seq<int>>,
    key: &Vec<char>,
    idx: usize,
    Ghost(keys): Ghost<Seq<Seq<char>>>,
    Ghost(inc): Ghost<Seq<bool>>,
) -> (r: (Ghost<Seq<Seq<char>>>, Ghost<Seq<int>>))
    requires
        trie_wf(old(trie)@, p0, keys, inc, idx as int),
        build_ok(old(trie)@, p0, par0),
        idx < keys.len(),
        idx < inc.len(),
        idx < usize::MAX,
        inc[idx as int],
        keys[idx as int] == key@,
    ensures
        trie_wf(final(trie)@, r.0@, keys, inc, idx + 1),
        build_ok(final(trie)@, r.0@, r.1@),
{
    let n = key.len();
    let mut node_idx: usize = 0;
    let mut pos: usize = 0;
    let ghost mut p = p0;
    let ghost mut par = par0;
    assert(key@.subrange(n as int, n as int) =~= Seq::<char>::empty());
    while pos < n
        invariant
            trie_wf(trie@, p, keys, inc, idx as int),
            build_ok(trie@, p, par),
            idx < keys.len(),
            idx < inc.len(),
            idx < usize::MAX,
            inc[idx as int],
            keys[idx as int] == key@,
            n == key@.len(),
            pos <= n,
            0 <= node_idx < trie@.len(),
            p[node_idx as int] == key@.subrange(n - pos, n as int),
            forall|i: int|
                0 <= i < trie@.len() && #[trigger] proper_suffix(p[i], key@) && p[i].len() < pos
                    ==> trie@[i].children@.contains_key(next_char(p[i], key@) as u32),
        decreases n - pos,
    {
        let ch = key[n - 1 - pos];
        let found = match trie[node_idx].children.get(&(ch as u32)) {
            Some(existing) => Some(*existing),
            None => None,
        };
        let next_idx: usize;
        match found {
            Some(existing) => {
                next_idx = existing;
            },
            None => {
                let ghost t0 = trie@;
                let new_idx = trie.len();
                trie.push(TrieNode::new());
                let grown = trie.len();
                assert(grown == t0.len() + 1);
                trie[node_idx].children.insert(ch as u32, new_idx);
                proof {
                    let p1 = p.push(seq![ch] + p[node_idx as int]);
                    let par1 = par.push(node_idx as int);
                    lemma_add_node(
                        t0,
                        p,
                        par,
                        trie@,
                        p1,
                        par1,
                        node_idx as int,
                        ch,
                        keys,
                        inc,
                        idx as int,
                    );
                    assert forall|i: int|
                        0 <= i < trie@.len() && #[trigger] proper_suffix(p1[i], key@) && p1[i].len()
                            < pos implies trie@[i].children@.contains_key(
                        next_char(p1[i], key@) as u32,
                    ) by {
                        if i < t0.len() {
                            assert(p1[i] == p[i]);
                            assert(t0[i].children@.contains_key(next_char(p[i], key@) as u32));
                        }
                    }
                    p = p1;
                    par = par1;
                }
                next_idx = new_idx;
            },
        }
        proof {
            let t = trie@;
            assert(t[node_idx as int].children@.contains_key(ch as u32));
            assert(t[node_idx as int].children@[ch as u32] == next_idx);
            assert(child_ok(t, p, node_idx as int, ch as u32));
            let np = p[next_idx as int];
            lemma_char_code(np[0], ch);
            assert(np =~= key@.subrange(n - pos - 1, n as int)) by {
                assert(np.drop_first() == p[node_idx as int]);
                assert forall|x: int| 0 <= x < np.len() implies np[x] == key@.subrange(
                    n - pos - 1,
                    n as int,
                )[x] by {
                    if x > 0 {
                        assert(np[x] == np.drop_first()[x - 1]);
                    }
                }
            }
            assert forall|i: int|
                0 <= i < t.len() && #[trigger] proper_suffix(p[i], key@) && p[i].len() < pos + 1
                    implies t[i].children@.contains_key(next_char(p[i], key@) as u32) by {
                if p[i].len() == pos {
                    assert(p[i] =~= p[node_idx as int]);
                    assert(i == node_idx as int);
                    assert(next_char(p[i], key@) == ch);
                }
            }
        }
        node_idx = next_idx;
        pos = pos + 1;
    }
    let ghost t0 = trie@;
    trie[node_idx].terminals.push(idx);
    proof {
        assert(p[node_idx as int] =~= key@);
        lemma_add_terminal(t0, trie@, p, par, node_idx as int, keys, inc, idx as int);
    }
    (Ghost(p), Ghost(par))
}

/// Finds the node spelling `text`; `None` when no key of the trie is
/// `text`.
pub fn find_node(
    trie: &Vec<TrieNode>,
    Ghost(paths): Ghost<Seq<Seq<char>>>,
    text: &Vec<char>,
    Ghost(keys): Ghost<Seq<Seq<char>>>,
    Ghost(inc): Ghost<Seq<bool>>,
    Ghost(count): Ghost<int>,
) -> (r: Option<usize>)
    requires
        trie_wf(trie@, paths, keys, inc, count),
    ensures
        match r {
            Some(n) => n < trie@.len() && paths[n as int] == text@,
            None => forall|k: int| member(inc, k, count) ==> #[trigger] keys[k] != text@,
        },
{
    let n = text.len();
    let mut node: usize = 0;
    let mut pos: usize = 0;
    assert(text@.subrange(n as int, n as int) =~= Seq::<char>::empty());
    while pos < n
        invariant
            trie_wf(trie@, paths, keys, inc, count),
            n == text@.len(),
            pos <= n,
            node < trie@.len(),
            paths[node as int] == text@.subrange(n - pos, n as int),
        decreases n - pos,
    {
        let ch = text[n - 1 - pos];
        let found = match trie[node].children.get(&(ch as u32)) {
            Some(i) => Some(*i),
            None => None,
        };
        match found {
            None => {
                proof {
                    assert forall|k: int| member(inc, k, count) implies #[trigger] keys[k] != text@ by {
                        if keys[k] == text@ {
                            assert(proper_suffix(paths[node as int], keys[k])) by {
                                assert(keys[k].subrange(keys[k].len() - pos, keys[k].len() as int)
                                    =~= paths[node as int]);
                            }
                            assert(next_char(paths[node as int], keys[k]) == ch);
                        }
                    }
                }
                return None;
            },
            Some(next) => {
                proof {
                    let t = trie@;
                    assert(child_ok(t, paths, node as int, ch as u32));
                    let np = paths[next as int];
                    let want = text@.subrange(n - pos - 1, n as int);
                    assert(np =~= want) by {
                        assert forall|x: int| 0 <= x < np.len() implies np[x] == want[x] by {
                            if x > 0 {
                                assert(np[x] == np.drop_first()[x - 1]);
                            } else {
                                lemma_char_code(np[0], ch);
                            }
                        }
                    }
                }
                node = next;
            },
        }
        pos = pos + 1;
    }
    assert(text@.subrange(0, n as int) =~= text@);
    Some(node)
}

} // verus!
