use vstd::prelude::*;
use std::collections::{BTreeSet, HashMap};
use vstd::utf8::encode_utf8;
use crate::lexer::chars_of;

verus! {

broadcast use vstd::std_specs::hash::group_hash_axioms;

/// `t` starts with `p`.
pub open spec fn has_prefix(t: Seq<u8>, p: Seq<u8>) -> bool {
    p.len() <= t.len() && t.take(p.len() as int) == p
}

/// Lexicographic order on byte strings, a proper prefix first.
pub open spec fn byte_lt(a: Seq<u8>, b: Seq<u8>) -> bool
    decreases a.len(),
{
    if a.len() == 0 {
        b.len() > 0
    } else if b.len() == 0 {
        false
    } else if a[0] != b[0] {
        a[0] < b[0]
    } else {
        byte_lt(a.drop_first(), b.drop_first())
    }
}

pub open spec fn sorted_strict(ts: Seq<Seq<u8>>) -> bool {
    forall|i: int, j: int| 0 <= i < j < ts.len() ==> byte_lt(ts[i], ts[j])
}

proof fn lemma_prefix_drop(t: Seq<u8>, p: Seq<u8>)
    requires
        has_prefix(t, p),
        p.len() > 0,
    ensures
        t[0] == p[0],
        has_prefix(t.drop_first(), p.drop_first()),
{
    assert(t.take(p.len() as int)[0] == t[0]);
    assert(t.drop_first().take(p.len() - 1) =~= t.take(p.len() as int).drop_first());
}

/// A byte string that lies between two strings with a common prefix has it too.
proof fn lemma_between(a: Seq<u8>, b: Seq<u8>, c: Seq<u8>, p: Seq<u8>)
    requires
        byte_lt(a, b),
        byte_lt(b, c),
        has_prefix(a, p),
        has_prefix(c, p),
    ensures
        has_prefix(b, p),
    decreases p.len(),
{
    if p.len() > 0 {
        lemma_prefix_drop(a, p);
        lemma_prefix_drop(c, p);
        assert(b.len() > 0);
        assert(b[0] == p[0]);
        lemma_between(a.drop_first(), b.drop_first(), c.drop_first(), p.drop_first());
        assert(b.take(p.len() as int) =~= seq![b[0]] + b.drop_first().take(p.len() - 1));
        assert(p =~= seq![p[0]] + p.drop_first());
        assert(b.take(p.len() as int) =~= p);
    } else {
        assert(b.take(0) =~= p);
    }
}

/// No string is below a prefix of it.
proof fn lemma_prefix_not_above(a: Seq<u8>, p: Seq<u8>)
    requires
        has_prefix(a, p),
    ensures
        !byte_lt(a, p),
    decreases p.len(),
{
    if p.len() > 0 {
        lemma_prefix_drop(a, p);
        lemma_prefix_not_above(a.drop_first(), p.drop_first());
    }
}

/// Among strings that share a prefix of length `d`, the byte at `d` does not
/// go down in sorted order.
proof fn lemma_next_byte_ordered(a: Seq<u8>, b: Seq<u8>, p: Seq<u8>)
    requires
        byte_lt(a, b),
        has_prefix(a, p),
        has_prefix(b, p),
        a.len() > p.len(),
        b.len() > p.len(),
    ensures
        a[p.len() as int] <= b[p.len() as int],
    decreases p.len(),
{
    if p.len() > 0 {
        lemma_prefix_drop(a, p);
        lemma_prefix_drop(b, p);
        lemma_next_byte_ordered(a.drop_first(), b.drop_first(), p.drop_first());
    }
}

proof fn lemma_prefix_push(t: Seq<u8>, p: Seq<u8>)
    requires
        has_prefix(t, p),
        t.len() > p.len(),
    ensures
        has_prefix(t, p.push(t[p.len() as int])),
{
    assert(t.take(p.len() as int + 1) =~= t.take(p.len() as int).push(t[p.len() as int]));
}

proof fn lemma_prefix_of_push(t: Seq<u8>, p: Seq<u8>, b: u8)
    requires
        has_prefix(t, p.push(b)),
    ensures
        has_prefix(t, p),
        t.len() > p.len(),
        t[p.len() as int] == b,
{
    assert(t.take(p.len() as int) =~= t.take(p.len() as int + 1).take(p.len() as int));
    assert(p.push(b).take(p.len() as int) =~= p);
    assert(t.take(p.len() as int + 1)[p.len() as int] == b);
}

pub proof fn lemma_encode_concat(a: Seq<char>, b: Seq<char>)
    ensures
        encode_utf8(a + b) == encode_utf8(a) + encode_utf8(b),
    decreases a.len(),
{
    if a.len() == 0 {
        assert(a + b =~= b);
        assert(encode_utf8(a) =~= Seq::<u8>::empty());
        assert(encode_utf8(a) + encode_utf8(b) =~= encode_utf8(b));
    } else {
        assert((a + b).drop_first() =~= a.drop_first() + b);
        lemma_encode_concat(a.drop_first(), b);
        assert(encode_utf8(a + b) =~= encode_utf8(a) + encode_utf8(b));
    }
}

pub struct TrieNode {
    pub l: usize,
    pub r: usize,
    pub end: bool,
    pub max_idx: usize,
    pub children: HashMap<u8, usize>,
}

/// A trie over a sorted list of distinct texts, each node covering the
/// range of texts that start with the bytes on its path, with the most used
/// text of each range at hand.
pub struct Trie {
    pub texts: Vec<String>,
    counts: Vec<usize>,
    nodes: Vec<TrieNode>,
    idx: Option<usize>,
    bytes: Vec<Vec<u8>>,
    prefixes: Ghost<Seq<Seq<u8>>>,
}

pub open spec fn bytes_view(b: Seq<Vec<u8>>) -> Seq<Seq<u8>> {
    b.map_values(|v: Vec<u8>| v@)
}

/// Node `id` covers exactly the texts that start with its prefix, is marked
/// as an end exactly when its prefix is itself a text, and has a child for
/// every byte that some text adds to its prefix.
pub open spec fn node_shape_ok(
    nodes: Seq<TrieNode>,
    prefixes: Seq<Seq<u8>>,
    bs: Seq<Seq<u8>>,
    id: int,
) -> bool {
    let node = nodes[id];
    let p = prefixes[id];
    &&& node.l <= node.r <= bs.len()
    &&& id > 0 ==> node.l < node.r
    &&& forall|k: int|
        0 <= k < bs.len() ==> ((node.l <= k < node.r) <==> has_prefix(#[trigger] bs[k], p))
    &&& node.end <==> (node.l < node.r && bs[node.l as int] == p)
    &&& forall|b: u8| #[trigger]
        node.children@.contains_key(b) ==> (node.children@[b] < nodes.len()
            && prefixes[node.children@[b] as int] == p.push(b))
    &&& forall|k: int|
        node.l <= k < node.r && #[trigger] bs[k].len() > p.len() ==> node.children@.contains_key(
            bs[k][p.len() as int],
        )
}

/// `max_idx` is the first index of the range with the greatest count.
pub open spec fn node_max_ok(node: TrieNode, counts: Seq<usize>) -> bool {
    &&& node.l <= node.max_idx
    &&& node.l == node.r ==> node.max_idx == node.l
    &&& node.l < node.r ==> {
        &&& node.max_idx < node.r
        &&& forall|k: int| node.l <= k < node.r ==> #[trigger] counts[k] <= counts[node.max_idx as int]
        &&& forall|k: int| node.l <= k < node.max_idx ==> #[trigger] counts[k] < counts[node.max_idx as int]
    }
}

pub open spec fn shapes_ok(nodes: Seq<TrieNode>, prefixes: Seq<Seq<u8>>, bs: Seq<Seq<u8>>, from: int, to: int) -> bool {
    forall|id: int| from <= id < to ==> #[trigger] node_shape_ok(nodes, prefixes, bs, id)
}

proof fn lemma_shapes_extend(
    nodes: Seq<TrieNode>,
    prefixes: Seq<Seq<u8>>,
    nodes2: Seq<TrieNode>,
    prefixes2: Seq<Seq<u8>>,
    bs: Seq<Seq<u8>>,
    from: int,
    to: int,
)
    requires
        shapes_ok(nodes, prefixes, bs, from, to),
        0 <= from <= to <= nodes.len() <= nodes2.len(),
        nodes.len() == prefixes.len(),
        nodes2.len() == prefixes2.len(),
        nodes2.take(nodes.len() as int) == nodes,
        prefixes2.take(prefixes.len() as int) == prefixes,
    ensures
        shapes_ok(nodes2, prefixes2, bs, from, to),
{
    assert forall|id: int| from <= id < to implies #[trigger] node_shape_ok(nodes2, prefixes2, bs, id) by {
        assert(node_shape_ok(nodes, prefixes, bs, id));
        assert(nodes2[id] == nodes.take(nodes.len() as int)[id]);
        assert(nodes2[id] == nodes[id]);
        assert(prefixes2[id] == prefixes[id]);
        let node = nodes[id];
        assert forall|b: u8| #[trigger] node.children@.contains_key(b) implies (node.children@[b] < nodes2.len()
            && prefixes2[node.children@[b] as int] == prefixes2[id].push(b)) by {
            assert(node_shape_ok(nodes, prefixes, bs, id));
            let c = node.children@[b] as int;
            assert(prefixes2[c] == prefixes2.take(prefixes.len() as int)[c]);
        }
    }
}

/// Builds the node for the texts `l..r`, which are exactly those that start
/// with the ghost prefix `p` of length `d`, and below it the nodes of each
/// byte that follows `p`; appends them to `nodes` in depth-first order.
fn create(
    l: usize,
    r: usize,
    d: usize,
    p: Ghost<Seq<u8>>,
    max_len: usize,
    bytes: &Vec<Vec<u8>>,
    nodes: &mut Vec<TrieNode>,
    prefixes: &mut Ghost<Seq<Seq<u8>>>,
)
    requires
        sorted_strict(bytes_view(bytes@)),
        l <= r <= bytes@.len(),
        old(nodes)@.len() > 0 ==> l < r,
        p@.len() == d,
        d <= max_len,
        forall|k: int|
            0 <= k < bytes@.len() ==> #[trigger] bytes_view(bytes@)[k].len() <= max_len,
        forall|k: int|
            0 <= k < bytes@.len() ==> ((l <= k < r) <==> has_prefix(
                #[trigger] bytes_view(bytes@)[k],
                p@,
            )),
        old(nodes)@.len() == old(prefixes)@.len(),
    ensures
        final(nodes)@.len() == final(prefixes)@.len(),
        final(nodes)@.len() > old(nodes)@.len(),
        final(nodes)@.take(old(nodes)@.len() as int) == old(nodes)@,
        final(prefixes)@.take(old(nodes)@.len() as int) == old(prefixes)@,
        final(prefixes)@[old(nodes)@.len() as int] == p@,
        final(nodes)@[old(nodes)@.len() as int].l == l,
        final(nodes)@[old(nodes)@.len() as int].r == r,
        shapes_ok(final(nodes)@, final(prefixes)@, bytes_view(bytes@), old(nodes)@.len() as int, final(nodes)@.len() as int),
        forall|x: int|
            old(nodes)@.len() <= x < final(nodes)@.len() ==> has_prefix(#[trigger] final(prefixes)@[x], p@),
        forall|x: int, y: int|
            old(nodes)@.len() <= x < y < final(nodes)@.len() ==> #[trigger] final(prefixes)@[x]
                != #[trigger] final(prefixes)@[y],
    decreases max_len - d,
{
    let ghost bs = bytes_view(bytes@);
    let ghost pp = p@;
    let id = nodes.len();
    nodes.push(TrieNode { l, r, end: false, max_idx: l, children: HashMap::new() });
    proof {
        prefixes@ = prefixes@.push(pp);
        assert(nodes@.take(id as int) =~= old(nodes)@);
        assert(prefixes@.take(id as int) =~= old(prefixes)@);
    }
    let mut children: HashMap<u8, usize> = HashMap::new();
    let mut end = false;
    let mut i = l;
    if i < r && bytes[i].len() == d {
        end = true;
        i += 1;
        proof {
            assert(has_prefix(bs[l as int], pp));
            assert(bs[l as int].take(d as int) =~= bs[l as int]);
        }
    }
    proof {
        assert forall|k: int| i <= k < r implies #[trigger] bs[k].len() > d by {
            assert(has_prefix(bs[k], pp));
            if k > l {
                assert(has_prefix(bs[l as int], pp));
                assert(byte_lt(bs[l as int], bs[k]));
                if bs[k].len() == d {
                    assert(bs[k].take(d as int) =~= bs[k]);
                    lemma_prefix_not_above(bs[l as int], bs[k]);
                }
            }
        }
        if l < r && bs[l as int] == pp {
            assert(bs[l as int].len() == d);
        }
    }
    while i < r
        invariant
            bs == bytes_view(bytes@),
            sorted_strict(bs),
            l <= i <= r <= bs.len(),
            pp.len() == d,
            d <= max_len,
            forall|k: int| 0 <= k < bs.len() ==> #[trigger] bs[k].len() <= max_len,
            forall|k: int| 0 <= k < bs.len() ==> ((l <= k < r) <==> has_prefix(#[trigger] bs[k], pp)),
            id == old(nodes)@.len(),
            nodes@.len() == prefixes@.len(),
            nodes@.len() > id,
            nodes@.take(id as int) == old(nodes)@,
            prefixes@.take(id as int) == old(prefixes)@,
            prefixes@[id as int] == pp,
            nodes@[id as int].l == l,
            nodes@[id as int].r == r,
            shapes_ok(nodes@, prefixes@, bs, id + 1, nodes@.len() as int),
            end <==> (l < r && bs[l as int] == pp),
            forall|k: int| i <= k < r ==> #[trigger] bs[k].len() > d,
            forall|k: int|
                l <= k < i && #[trigger] bs[k].len() > d ==> children@.contains_key(bs[k][d as int]),
            forall|k: int|
                l <= k < i ==> i < r ==> (#[trigger] bs[k].len() == d || bs[k][d as int]
                    < bs[i as int][d as int]),
            forall|b: u8| #[trigger]
                children@.contains_key(b) ==> (children@[b] < nodes@.len() && prefixes@[children@[b] as int]
                    == pp.push(b)),
            forall|x: int|
                id < x < nodes@.len() ==> has_prefix(#[trigger] prefixes@[x], pp) && prefixes@[x].len() > d
                    && (i < r ==> prefixes@[x][d as int] < bs[i as int][d as int]),
            forall|x: int, y: int|
                id <= x < y < nodes@.len() ==> #[trigger] prefixes@[x] != #[trigger] prefixes@[y],
        decreases r - i,
    {
        proof {
            assert forall|k: int| i <= k < r implies #[trigger] bytes@[k]@.len() > d by {
                assert(bs[k] == bytes@[k]@);
            }
        }
        let b = bytes[i][d];
        let mut j = i + 1;
        while j < r && bytes[j][d] == b
            invariant
                bs == bytes_view(bytes@),
                i < j <= r <= bs.len(),
                b == bs[i as int][d as int],
                forall|k: int| i <= k < r ==> #[trigger] bs[k].len() > d,
                forall|k: int| i <= k < r ==> #[trigger] bytes@[k]@.len() > d,
                forall|k: int| i <= k < j ==> #[trigger] bs[k][d as int] == b,
            decreases r - j,
        {
            j += 1;
        }
        let ghost q = pp.push(b);
        proof {
            assert(has_prefix(bs[i as int], pp));
            if j < r {
                assert(has_prefix(bs[j as int], pp));
                lemma_next_byte_ordered(bs[i as int], bs[j as int], pp);
                assert(b < bs[j as int][d as int]);
            }
            assert forall|k: int| 0 <= k < bs.len() implies ((i <= k < j) <==> has_prefix(
                #[trigger] bs[k],
                q,
            )) by {
                if i <= k < j {
                    assert(has_prefix(bs[k], pp));
                    lemma_prefix_push(bs[k], pp);
                }
                if has_prefix(bs[k], q) {
                    lemma_prefix_of_push(bs[k], pp, b);
                    assert(l <= k < r);
                    if k < i {
                        assert(bs[k][d as int] < bs[i as int][d as int]);
                    }
                    if k > j {
                        assert(has_prefix(bs[j as int], pp));
                        lemma_next_byte_ordered(bs[j as int], bs[k], pp);
                    }
                }
            }
        }
        let ghost before = nodes@;
        let ghost before_p = prefixes@;
        let child = nodes.len();
        create(i, j, d + 1, Ghost(q), max_len, bytes, nodes, prefixes);
        children.insert(b, child);
        proof {
            lemma_shapes_extend(before, before_p, nodes@, prefixes@, bs, id + 1, child as int);
            assert(shapes_ok(nodes@, prefixes@, bs, id + 1, nodes@.len() as int)) by {
                assert forall|x: int| id + 1 <= x < nodes@.len() implies #[trigger] node_shape_ok(
                    nodes@,
                    prefixes@,
                    bs,
                    x,
                ) by {
                    if x < child {
                        assert(shapes_ok(nodes@, prefixes@, bs, id + 1, child as int));
                    } else {
                        assert(shapes_ok(nodes@, prefixes@, bs, child as int, nodes@.len() as int));
                    }
                }
            }
            assert(nodes@.take(id as int) =~= before.take(id as int));
            assert(prefixes@.take(id as int) =~= before_p.take(id as int));
            assert(nodes@[id as int] == nodes@.take(child as int)[id as int]);
            assert(prefixes@[id as int] == prefixes@.take(child as int)[id as int]);
            assert forall|c: u8| #[trigger] children@.contains_key(c) implies (children@[c]
                < nodes@.len() && prefixes@[children@[c] as int] == pp.push(c)) by {
                if c != b {
                    let x = children@[c] as int;
                    assert(prefixes@[x] == prefixes@.take(child as int)[x]);
                }
            }
            assert forall|x: int| id < x < nodes@.len() implies has_prefix(#[trigger] prefixes@[x], pp)
                && prefixes@[x].len() > d && (j < r ==> prefixes@[x][d as int] < bs[j as int][d as int]) by {
                if x < child {
                    assert(prefixes@[x] == prefixes@.take(child as int)[x]);
                    assert(before_p[x][d as int] < b);
                } else {
                    assert(has_prefix(prefixes@[x], q));
                    lemma_prefix_of_push(prefixes@[x], pp, b);
                }
            }
            assert forall|x: int, y: int| id <= x < y < nodes@.len() implies #[trigger] prefixes@[x]
                != #[trigger] prefixes@[y] by {
                if y < child {
                    assert(prefixes@[x] == prefixes@.take(child as int)[x]);
                    assert(prefixes@[y] == prefixes@.take(child as int)[y]);
                    assert(before_p[x] != before_p[y]);
                } else if x >= child {
                } else {
                    assert(has_prefix(prefixes@[y], q));
                    lemma_prefix_of_push(prefixes@[y], pp, b);
                    assert(prefixes@[x] == prefixes@.take(child as int)[x]);
                    if x > id {
                        assert(before_p[x][d as int] < b);
                    } else {
                        assert(prefixes@[x].len() == d);
                    }
                }
            }
            assert forall|k: int| l <= k < j implies j < r ==> (#[trigger] bs[k].len() == d
                || bs[k][d as int] < bs[j as int][d as int]) by {
                if k < i && bs[k].len() != d {
                    assert(bs[k][d as int] < bs[i as int][d as int]);
                }
            }
        }
        i = j;
    }
    let ghost before = nodes@;
    nodes.set(id, TrieNode { l, r, end, max_idx: l, children });
    proof {
        assert(nodes@.take(id as int) =~= before.take(id as int));
        assert forall|x: int| id + 1 <= x < nodes@.len() implies #[trigger] node_shape_ok(
            nodes@,
            prefixes@,
            bs,
            x,
        ) by {
            assert(node_shape_ok(before, prefixes@, bs, x));
            assert(nodes@[x] == before[x]);
        }
        assert(node_shape_ok(nodes@, prefixes@, bs, id as int));
        assert(pp.take(d as int) =~= pp);
        assert(has_prefix(prefixes@[id as int], pp));
        assert forall|x: int| id <= x < nodes@.len() implies #[trigger] node_shape_ok(
            nodes@,
            prefixes@,
            bs,
            x,
        ) by {
            if x > id {
                assert(shapes_ok(nodes@, prefixes@, bs, id + 1, nodes@.len() as int));
            }
        }
    }
}

/// Relies on BTreeSet<String>: it keeps one copy of each distinct string and
/// hands them out in ascending order, which for strings is the lexicographic
/// order of their UTF-8 bytes.
#[verifier::external_body]
fn sorted_unique(texts: &Vec<String>) -> (r: Vec<String>)
    ensures
        forall|i: int|
            0 <= i < r@.len() ==> exists|j: int| 0 <= j < texts@.len() && #[trigger] r@[i]@ == #[trigger] texts@[j]@,
        forall|j: int|
            0 <= j < texts@.len() ==> exists|i: int| 0 <= i < r@.len() && #[trigger] r@[i]@ == #[trigger] texts@[j]@,
        forall|i: int, j: int|
            0 <= i < j < r@.len() ==> byte_lt(encode_utf8(#[trigger] r@[i]@), encode_utf8(#[trigger] r@[j]@)),
{
    texts.iter().cloned().collect::<BTreeSet<String>>().into_iter().collect()
}

/// Relies on char::encode_utf8: the UTF-8 bytes of one character.
#[verifier::external_body]
fn char_bytes(c: char) -> (r: Vec<u8>)
    ensures
        r@ == encode_utf8(seq![c]),
{
    let mut buf = [0u8; 4];
    c.encode_utf8(&mut buf).as_bytes().to_vec()
}

/// ASCII white space as `str::split_ascii_whitespace` knows it.
pub open spec fn is_ascii_space(c: char) -> bool {
    c == ' ' || c == '\t' || c == '\n' || c == '\x0C' || c == '\r'
}

/// The length of the run of non-space characters that `s` starts with.
pub open spec fn run_len(s: Seq<char>) -> nat
    decreases s.len(),
{
    if s.len() == 0 || is_ascii_space(s[0]) {
        0
    } else {
        1 + run_len(s.drop_first())
    }
}

/// The first word of a line, words being separated by ASCII white space.
pub open spec fn first_word_of(s: Seq<char>) -> Option<Seq<char>>
    decreases s.len(),
{
    if s.len() == 0 {
        None
    } else if is_ascii_space(s[0]) {
        first_word_of(s.drop_first())
    } else {
        Some(s.take(run_len(s) as int))
    }
}

proof fn lemma_run_len(s: Seq<char>, i: int)
    requires
        0 <= i <= run_len(s),
    ensures
        run_len(s) <= s.len(),
        run_len(s) == i + run_len(s.skip(i)),
    decreases s.len(),
{
    if s.len() > 0 && !is_ascii_space(s[0]) {
        if i > 0 {
            lemma_run_len(s.drop_first(), i - 1);
            assert(s.drop_first().skip(i - 1) =~= s.skip(i));
        } else {
            lemma_run_len(s.drop_first(), 0);
            assert(s.skip(0) =~= s);
        }
    } else {
        assert(s.skip(0) =~= s);
    }
}

/// The first word of `s`, if it has one.
pub fn first_word(s: &str) -> (r: Option<String>)
    ensures
        match (r, first_word_of(s@)) {
            (None, None) => true,
            (Some(w), Some(v)) => w@ == v,
            _ => false,
        },
{
    let cs = chars_of(s);
    let n = cs.len();
    let mut i: usize = 0;
    assert(s@.skip(0) =~= s@);
    while i < n && is_space(cs[i])
        invariant
            cs@ == s@,
            n == cs@.len(),
            i <= n,
            first_word_of(s@) == first_word_of(s@.skip(i as int)),
        decreases n - i,
    {
        assert(s@.skip(i as int).drop_first() =~= s@.skip(i + 1));
        i += 1;
    }
    if i == n {
        return None;
    }
    let ghost rest = s@.skip(i as int);
    let mut j = i;
    proof {
        lemma_run_len(rest, 0);
        assert(rest.skip(0) =~= rest);
    }
    while j < n && !is_space(cs[j])
        invariant
            cs@ == s@,
            n == cs@.len(),
            i <= j <= n,
            rest == s@.skip(i as int),
            j - i <= run_len(rest),
            run_len(rest) == (j - i) + run_len(s@.skip(j as int)),
        decreases n - j,
    {
        assert(s@.skip(j as int).drop_first() =~= s@.skip(j + 1));
        j += 1;
    }
    proof {
        lemma_run_len(rest, (j - i) as int);
    }
    let w = s.substring_char(i, j).to_owned();
    assert(w@ =~= rest.take(run_len(rest) as int));
    Some(w)
}

fn is_space(c: char) -> (r: bool)
    ensures
        r == is_ascii_space(c),
{
    c == ' ' || c == '\t' || c == '\n' || c == '\x0C' || c == '\r'
}

/// What a trie holds: its texts, how often each was used, and where the
/// search stands (the bytes matched so far, or `None` once nothing matches).
pub struct TrieV {
    pub texts: Seq<Seq<char>>,
    pub counts: Seq<int>,
    pub cursor: Option<Seq<u8>>,
}

impl View for Trie {
    type V = TrieV;

    closed spec fn view(&self) -> TrieV {
        TrieV {
            texts: self.texts@.map_values(|s: String| s@),
            counts: self.counts@.map_values(|c: usize| c as int),
            cursor: match self.idx {
                Some(i) => Some(self.prefixes@[i as int]),
                None => None,
            },
        }
    }
}

/// Some text starts with the bytes `q`.
pub open spec fn matches_any(texts: Seq<Seq<char>>, q: Seq<u8>) -> bool {
    exists|k: int| 0 <= k < texts.len() && has_prefix(encode_utf8(texts[k]), q)
}

/// Where a search that stands at `cur` is after the bytes `q`.
pub open spec fn walk(texts: Seq<Seq<char>>, cur: Option<Seq<u8>>, q: Seq<u8>) -> Option<Seq<u8>> {
    match cur {
        None => None,
        Some(p) => if q.len() == 0 {
            Some(p)
        } else if matches_any(texts, p + q) {
            Some(p + q)
        } else {
            None
        },
    }
}

/// `m` is the first of the texts that start with `p` to have the greatest count.
pub open spec fn is_best(v: TrieV, p: Seq<u8>, m: int) -> bool {
    &&& 0 <= m < v.texts.len()
    &&& has_prefix(encode_utf8(v.texts[m]), p)
    &&& forall|k: int|
        0 <= k < v.texts.len() && has_prefix(encode_utf8(v.texts[k]), p) ==> #[trigger] v.counts[k]
            <= v.counts[m]
    &&& forall|k: int|
        0 <= k < m && has_prefix(encode_utf8(v.texts[k]), p) ==> #[trigger] v.counts[k] < v.counts[m]
}

/// `l..r` holds exactly the texts that start with `p`.
pub open spec fn is_range(v: TrieV, p: Seq<u8>, l: int, r: int) -> bool {
    &&& 0 <= l <= r <= v.texts.len()
    &&& forall|k: int|
        0 <= k < v.texts.len() ==> ((l <= k < r) <==> has_prefix(encode_utf8(#[trigger] v.texts[k]), p))
}

proof fn lemma_byte_lt_irrefl(a: Seq<u8>)
    ensures
        !byte_lt(a, a),
    decreases a.len(),
{
    if a.len() > 0 {
        lemma_byte_lt_irrefl(a.drop_first());
    }
}

proof fn lemma_hist_count_bound(h: Seq<(i32, String)>, t: Seq<u8>)
    ensures
        0 <= hist_count(h, t) <= h.len(),
    decreases h.len(),
{
    if h.len() > 0 {
        lemma_hist_count_bound(h.drop_last(), t);
    }
}

proof fn lemma_untouched(node: TrieNode, c0: Seq<usize>, c1: Seq<usize>, k: int)
    requires
        node_max_ok(node, c0),
        node.r <= c0.len(),
        0 <= k < c0.len(),
        !(node.l <= k < node.r),
        c1 == c0.update(k, c1[k]),
    ensures
        node_max_ok(node, c1),
{
    assert forall|j: int| node.l <= j < node.r implies #[trigger] c1[j] == c0[j] by {}
}

/// Raising the count of `k`, a text of the node's range, by one keeps the
/// node's `max_idx` right once it moves to `k` where `k` now wins.
proof fn lemma_bump(node: TrieNode, c0: Seq<usize>, c1: Seq<usize>, k: int)
    requires
        node_max_ok(node, c0),
        node.r <= c0.len(),
        node.l <= k < node.r,
        c1 == c0.update(k, (c0[k] + 1) as usize),
        c0[k] < usize::MAX,
    ensures
        ({
            let m = node.max_idx as int;
            if m != k && (c1[k] > c1[m] || (c1[k] == c1[m] && k < m)) {
                node_max_ok(TrieNode { max_idx: k as usize, ..node }, c1)
            } else {
                node_max_ok(node, c1)
            }
        }),
{
}

/// Some string of `v` holds the characters `t`.
pub open spec fn in_strings(v: Seq<String>, t: Seq<char>) -> bool {
    exists|j: int| 0 <= j < v.len() && v[j]@ == t
}

/// The chosen text first, then the rest of `l..h` in order.
pub open spec fn match_order(texts: Seq<Seq<char>>, l: int, h: int, m: int) -> Seq<Seq<char>> {
    seq![texts[m]] + texts.subrange(l, m) + texts.subrange(m + 1, h)
}

/// `list` is what the cursor matches: the most used text first, then the
/// other matching texts in sorted order; nothing once nothing matches.
pub open spec fn is_match_list(v: TrieV, list: Seq<Seq<char>>) -> bool {
    match v.cursor {
        Some(p) => if matches_any(v.texts, p) {
            exists|l: int, h: int, m: int|
                is_range(v, p, l, h) && is_best(v, p, m) && #[trigger] match_order(v.texts, l, h, m)
                    == list
        } else {
            list.len() == 0
        },
        None => list.len() == 0,
    }
}

/// Where a search that stands at `cur` is after the characters `cs`, one
/// at a time.
pub open spec fn walk_chars(texts: Seq<Seq<char>>, cur: Option<Seq<u8>>, cs: Seq<char>) -> Option<Seq<u8>>
    decreases cs.len(),
{
    if cs.len() == 0 {
        cur
    } else {
        walk_chars(texts, walk(texts, cur, encode_utf8(seq![cs[0]])), cs.drop_first())
    }
}

/// How many entries of a history start with a word whose bytes are `t`.
pub open spec fn hist_count(hist: Seq<(i32, String)>, t: Seq<u8>) -> int
    decreases hist.len(),
{
    if hist.len() == 0 {
        0
    } else {
        hist_count(hist.drop_last(), t) + match first_word_of(hist.last().1@) {
            Some(w) => if encode_utf8(w) == t {
                1int
            } else {
                0
            },
            None => 0,
        }
    }
}

impl Trie {
    pub closed spec fn bs(&self) -> Seq<Seq<u8>> {
        bytes_view(self.bytes@)
    }

    pub closed spec fn wf(&self) -> bool {
        &&& self.shape_ok()
        &&& forall|id: int|
            0 <= id < self.nodes@.len() ==> node_max_ok(#[trigger] self.nodes@[id], self.counts@)
    }

    closed spec fn shape_ok(&self) -> bool {
        let n = self.texts@.len();
        &&& self.bytes@.len() == n
        &&& self.counts@.len() == n
        &&& forall|k: int| 0 <= k < n ==> #[trigger] self.bs()[k] == encode_utf8(self.texts@[k]@)
        &&& sorted_strict(self.bs())
        &&& self.nodes@.len() >= 1
        &&& self.prefixes@.len() == self.nodes@.len()
        &&& self.prefixes@[0] == Seq::<u8>::empty()
        &&& shapes_ok(self.nodes@, self.prefixes@, self.bs(), 0, self.nodes@.len() as int)
        &&& forall|x: int, y: int|
            0 <= x < y < self.nodes@.len() ==> #[trigger] self.prefixes@[x]
                != #[trigger] self.prefixes@[y]
        &&& self.idx is Some ==> self.idx->0 < self.nodes@.len()
    }

    proof fn lemma_view(&self)
        requires
            self.shape_ok(),
        ensures
            self@.texts.len() == self.texts@.len(),
            self@.counts.len() == self.texts@.len(),
            forall|k: int| 0 <= k < self.texts@.len() ==> #[trigger] self.bs()[k] == encode_utf8(self@.texts[k]),
            forall|k: int| 0 <= k < self.texts@.len() ==> #[trigger] self@.counts[k] == self.counts@[k] as int,
    {
        assert forall|k: int| 0 <= k < self.texts@.len() implies #[trigger] self.bs()[k] == encode_utf8(self@.texts[k]) by {
            assert(self@.texts[k] == self.texts@[k]@);
        }
    }

    /// The cursor moves by one byte from the node for `x`.
    proof fn lemma_step(&self, i: int, x: Seq<u8>, b: u8)
        requires
            self.shape_ok(),
            0 <= i < self.nodes@.len(),
            self.prefixes@[i] == x,
        ensures
            self.nodes@[i].children@.contains_key(b) ==> matches_any(self@.texts, x.push(b)),
            !self.nodes@[i].children@.contains_key(b) ==> !matches_any(self@.texts, x.push(b)),
    {
        self.lemma_view();
        let bs = self.bs();
        assert(node_shape_ok(self.nodes@, self.prefixes@, bs, i));
        let node = self.nodes@[i];
        if node.children@.contains_key(b) {
            let c = node.children@[b] as int;
            assert(node_shape_ok(self.nodes@, self.prefixes@, bs, c));
            assert(self.prefixes@[c] == x.push(b));
            if c == 0 {
                assert(self.prefixes@[c].len() > 0);
            }
            let k = self.nodes@[c].l as int;
            assert(has_prefix(bs[k], x.push(b)));
            assert(has_prefix(encode_utf8(self@.texts[k]), x.push(b)));
        } else {
            if matches_any(self@.texts, x.push(b)) {
                let k = choose|k: int|
                    0 <= k < self@.texts.len() && has_prefix(encode_utf8(self@.texts[k]), x.push(b));
                assert(has_prefix(bs[k], x.push(b)));
                lemma_prefix_of_push(bs[k], x, b);
                assert(node.l <= k < node.r);
            }
        }
    }

    proof fn lemma_no_match_push(texts: Seq<Seq<char>>, x: Seq<u8>, b: u8)
        requires
            !matches_any(texts, x),
        ensures
            !matches_any(texts, x.push(b)),
    {
        if matches_any(texts, x.push(b)) {
            let k = choose|k: int| 0 <= k < texts.len() && has_prefix(encode_utf8(texts[k]), x.push(b));
            lemma_prefix_of_push(encode_utf8(texts[k]), x, b);
        }
    }

    /// Moves the cursor by the UTF-8 bytes of `c`; once a byte has no child,
    /// the cursor is `None` until the next `reset`.
    pub fn search(&mut self, c: char)
        requires
            old(self).wf(),
        ensures
            final(self).wf(),
            final(self)@.texts == old(self)@.texts,
            final(self)@.counts == old(self)@.counts,
            final(self)@.cursor == walk(old(self)@.texts, old(self)@.cursor, encode_utf8(seq![c])),
    {
        let cb = char_bytes(c);
        let ghost texts = self@.texts;
        let ghost counts = self@.counts;
        let ghost cur0 = self@.cursor;
        let mut m: usize = 0;
        assert(cb@.take(0) =~= Seq::<u8>::empty());
        while m < cb.len()
            invariant
                self.wf(),
                self@.texts == texts,
                self@.counts == counts,
                cur0 == old(self)@.cursor,
                texts == old(self)@.texts,
                m <= cb@.len(),
                self@.cursor == walk(texts, cur0, cb@.take(m as int)),
            decreases cb.len() - m,
        {
            let b = cb[m];
            let ghost before = self@.cursor;
            match self.idx {
                Some(i) => {
                    proof {
                        self.lemma_step(i as int, self.prefixes@[i as int], b);
                        assert(node_shape_ok(self.nodes@, self.prefixes@, self.bs(), i as int));
                    }
                    self.idx = match self.nodes[i].children.get(&b) {
                        Some(c) => Some(*c),
                        None => None,
                    };
                },
                None => {},
            }
            proof {
                let q = cb@.take(m as int);
                assert(cb@.take(m + 1) =~= q.push(b));
                if let Some(p) = cur0 {
                    assert(p + q.push(b) =~= (p + q).push(b));
                    if q.len() == 0 {
                        assert(p + q =~= p);
                    } else if !matches_any(texts, p + q) {
                        Self::lemma_no_match_push(texts, p + q, b);
                    }
                }
            }
            m += 1;
        }
        assert(cb@.take(cb@.len() as int) =~= cb@);
    }

    /// The range of the texts that the cursor matches; empty once nothing
    /// matches.
    pub fn get_range(&self) -> (r: std::ops::Range<usize>)
        requires
            self.wf(),
        ensures
            match self@.cursor {
                Some(p) => is_range(self@, p, r.start as int, r.end as int),
                None => r.start == 0 && r.end == 0,
            },
    {
        proof {
            self.lemma_view();
        }
        match self.idx {
            Some(i) => {
                let ghost p = self.prefixes@[i as int];
                let ghost node = self.nodes@[i as int];
                proof {
                    assert(node_shape_ok(self.nodes@, self.prefixes@, self.bs(), i as int));
                    assert forall|k: int| 0 <= k < self@.texts.len() implies ((node.l <= k < node.r)
                        <==> has_prefix(encode_utf8(#[trigger] self@.texts[k]), p)) by {
                        assert(self.bs()[k] == encode_utf8(self@.texts[k]));
                    }
                }
                let r = self.nodes[i].l..self.nodes[i].r;
                assert(r.start == node.l && r.end == node.r);
                r
            },
            None => 0..0,
        }
    }

    /// The most used of the texts that the cursor matches.
    pub fn get_max(&self) -> (r: Option<usize>)
        requires
            self.wf(),
        ensures
            match self@.cursor {
                Some(p) => r is Some && (matches_any(self@.texts, p) ==> is_best(self@, p, r->0 as int)),
                None => r is None,
            },
    {
        proof {
            self.lemma_view();
        }
        match self.idx {
            Some(i) => {
                proof {
                    let p = self.prefixes@[i as int];
                    let node = self.nodes@[i as int];
                    assert(node_shape_ok(self.nodes@, self.prefixes@, self.bs(), i as int));
                    assert(node_max_ok(node, self.counts@));
                    if matches_any(self@.texts, p) {
                        let k = choose|k: int|
                            0 <= k < self@.texts.len() && has_prefix(encode_utf8(self@.texts[k]), p);
                        assert(has_prefix(self.bs()[k], p));
                        let m = node.max_idx as int;
                        assert(self.bs()[m] == encode_utf8(self@.texts[m]));
                        assert forall|k: int|
                            0 <= k < self@.texts.len() && has_prefix(encode_utf8(self@.texts[k]), p)
                            implies #[trigger] self@.counts[k] <= self@.counts[m] by {
                            assert(self.bs()[k] == encode_utf8(self@.texts[k]));
                        }
                        assert forall|k: int|
                            0 <= k < m && has_prefix(encode_utf8(self@.texts[k]), p)
                            implies #[trigger] self@.counts[k] < self@.counts[m] by {
                            assert(self.bs()[k] == encode_utf8(self@.texts[k]));
                        }
                    }
                }
                Some(self.nodes[i].max_idx)
            },
            None => None,
        }
    }

    /// The node whose prefix is `q`, if some text starts with `q` (the root
    /// for the empty `q`).
    fn find(&self, q: &Vec<u8>) -> (r: Option<usize>)
        requires
            self.shape_ok(),
        ensures
            match r {
                Some(i) => i < self.nodes@.len() && self.prefixes@[i as int] == q@,
                None => !matches_any(self@.texts, q@),
            },
    {
        let mut cur: Option<usize> = Some(0);
        let mut m: usize = 0;
        assert(q@.take(0) =~= Seq::<u8>::empty());
        while m < q.len()
            invariant
                self.shape_ok(),
                m <= q@.len(),
                match cur {
                    Some(i) => i < self.nodes@.len() && self.prefixes@[i as int] == q@.take(m as int),
                    None => !matches_any(self@.texts, q@.take(m as int)),
                },
            decreases q.len() - m,
        {
            let b = q[m];
            assert(q@.take(m + 1) =~= q@.take(m as int).push(b));
            match cur {
                Some(i) => {
                    proof {
                        self.lemma_step(i as int, q@.take(m as int), b);
                        assert(node_shape_ok(self.nodes@, self.prefixes@, self.bs(), i as int));
                    }
                    cur = match self.nodes[i].children.get(&b) {
                        Some(c) => Some(*c),
                        None => None,
                    };
                },
                None => {
                    proof {
                        Self::lemma_no_match_push(self@.texts, q@.take(m as int), b);
                    }
                },
            }
            m += 1;
        }
        assert(q@.take(q@.len() as int) =~= q@);
        cur
    }

    /// The texts that the cursor matches: the most used first, then the
    /// others in sorted order.
    pub fn get_match_texts(&self) -> (r: Vec<String>)
        requires
            self.wf(),
        ensures
            is_match_list(self@, r@.map_values(|s: String| s@)),
    {
        let range = self.get_range();
        let best = self.get_max();
        let mut out: Vec<String> = Vec::new();
        if range.start >= range.end {
            proof {
                if let Some(p) = self@.cursor {
                    if matches_any(self@.texts, p) {
                        let k = choose|k: int|
                            0 <= k < self@.texts.len() && has_prefix(encode_utf8(self@.texts[k]), p);
                    }
                }
            }
            return out;
        }
        let m = match best {
            Some(m) => m,
            None => {
                return out;
            },
        };
        let ghost p = self@.cursor->0;
        proof {
            self.lemma_view();
            assert(has_prefix(encode_utf8(self@.texts[range.start as int]), p));
        }
        let ghost tv = self@.texts;
        proof {
            assert(self.texts@[m as int]@ == tv[m as int]);
        }
        out.push(self.texts[m].clone());
        let mut i = range.start;
        while i < range.end
            invariant
                self.wf(),
                tv == self@.texts,
                tv.len() == self.texts@.len(),
                is_range(self@, p, range.start as int, range.end as int),
                is_best(self@, p, m as int),
                range.start <= i <= range.end,
                out@.map_values(|s: String| s@) == seq![tv[m as int]] + (if i <= m {
                    tv.subrange(range.start as int, i as int)
                } else {
                    tv.subrange(range.start as int, m as int) + tv.subrange(m + 1, i as int)
                }),
            decreases range.end - i,
        {
            let ghost prev = out@;
            if i != m {
                proof {
                    assert(self.texts@[i as int]@ == tv[i as int]);
                }
                out.push(self.texts[i].clone());
            }
            proof {
                let v = out@.map_values(|s: String| s@);
                if i < m {
                    assert(tv.subrange(range.start as int, i + 1) =~= tv.subrange(range.start as int, i as int).push(tv[i as int]));
                    assert(v =~= prev.map_values(|s: String| s@).push(tv[i as int]));
                } else if i == m {
                    assert(tv.subrange(m + 1, i + 1) =~= Seq::<Seq<char>>::empty());
                    assert(out@ == prev);
                    assert(v =~= seq![tv[m as int]] + (tv.subrange(range.start as int, m as int)
                        + tv.subrange(m + 1, i + 1)));
                } else {
                    assert(tv.subrange(m + 1, i + 1) =~= tv.subrange(m + 1, i as int).push(tv[i as int]));
                    assert(v =~= prev.map_values(|s: String| s@).push(tv[i as int]));
                }
            }
            i += 1;
        }
        proof {
            assert(out@.map_values(|s: String| s@) =~= match_order(tv, range.start as int, range.end as int, m as int));
        }
        out
    }

    proof fn lemma_distinct(&self, a: int, b: int)
        requires
            self.shape_ok(),
            0 <= a < b < self.texts@.len(),
        ensures
            self.bs()[a] != self.bs()[b],
    {
        lemma_byte_lt_irrefl(self.bs()[a]);
    }

    /// The node reached by the bytes `w` covers the text `w` as its first
    /// text if `w` is a text, and no text equals `w` otherwise.
    proof fn lemma_found(&self, i: int, w: Seq<u8>, k: int)
        requires
            self.shape_ok(),
            0 <= i < self.nodes@.len(),
            self.prefixes@[i] == w,
            0 <= k < self.texts@.len(),
        ensures
            self.bs()[k] == w <==> (self.nodes@[i].end && k == self.nodes@[i].l),
    {
        let bs = self.bs();
        assert(node_shape_ok(self.nodes@, self.prefixes@, bs, i));
        let node = self.nodes@[i];
        if bs[k] == w {
            assert(bs[k].take(w.len() as int) =~= bs[k]);
            assert(node.l <= k < node.r);
            if k != node.l {
                assert(has_prefix(bs[node.l as int], w));
                assert(byte_lt(bs[node.l as int], bs[k]));
                lemma_prefix_not_above(bs[node.l as int], w);
            }
        }
    }

    fn read_history(&mut self, hist: &Vec<(i32, String)>)
        requires
            old(self).shape_ok(),
            forall|k: int| 0 <= k < old(self).counts@.len() ==> #[trigger] old(self).counts@[k] == 0,
        ensures
            final(self).shape_ok(),
            final(self).nodes == old(self).nodes,
            final(self)@.texts == old(self)@.texts,
            final(self)@.cursor == old(self)@.cursor,
            final(self).counts@.len() == old(self).counts@.len(),
            forall|k: int|
                0 <= k < final(self).counts@.len() ==> #[trigger] final(self).counts@[k] == hist_count(
                    hist@,
                    final(self).bs()[k],
                ),
    {
        let mut j: usize = 0;
        let ghost nodes0 = self.nodes;
        let ghost v0 = self@;
        proof {
            assert forall|k: int| 0 <= k < self.counts@.len() implies #[trigger] self.counts@[k]
                == hist_count(hist@.take(0), self.bs()[k]) by {
                assert(hist@.take(0).len() == 0);
            }
        }
        while j < hist.len()
            invariant
                self.shape_ok(),
                self.nodes == nodes0,
                self@.texts == v0.texts,
                self@.cursor == v0.cursor,
                self.counts@.len() == self.texts@.len(),
                j <= hist@.len(),
                forall|k: int|
                    0 <= k < self.counts@.len() ==> #[trigger] self.counts@[k] == hist_count(
                        hist@.take(j as int),
                        self.bs()[k],
                    ),
            decreases hist.len() - j,
        {
            let ghost before = self.counts@;
            let ghost h = hist@.take(j as int + 1);
            proof {
                assert(h.drop_last() =~= hist@.take(j as int));
                assert(h.last() == hist@[j as int]);
            }
            let fw = first_word(hist[j].1.as_str());
            match fw {
                Some(w) => {
                    let wb = w.as_str().as_bytes_vec();
                    match self.find(&wb) {
                        Some(i) => {
                            if self.nodes[i].end {
                                let k = self.nodes[i].l;
                                proof {
                                    assert(node_shape_ok(self.nodes@, self.prefixes@, self.bs(), i as int));
                                    lemma_hist_count_bound(hist@.take(j as int), self.bs()[k as int]);
                                }
                                let c = self.counts[k];
                                self.counts.set(k, c + 1);
                            }
                            proof {
                                assert forall|k: int| 0 <= k < self.counts@.len() implies #[trigger] self.counts@[k]
                                    == hist_count(h, self.bs()[k]) by {
                                    self.lemma_found(i as int, wb@, k);
                                }
                            }
                        },
                        None => {
                            proof {
                                assert forall|k: int| 0 <= k < self.counts@.len() implies #[trigger] self.counts@[k]
                                    == hist_count(h, self.bs()[k]) by {
                                    self.lemma_view();
                                    if self.bs()[k] == wb@ {
                                        assert(self.bs()[k].take(wb@.len() as int) =~= self.bs()[k]);
                                        assert(has_prefix(encode_utf8(self@.texts[k]), wb@));
                                    }
                                }
                            }
                        },
                    }
                },
                None => {},
            }
            j += 1;
        }
        assert(hist@.take(hist@.len() as int) =~= hist@);
    }

    /// Sets each node's `max_idx` to the first text of its range with the
    /// greatest count.
    fn compute_max(&mut self)
        requires
            old(self).shape_ok(),
        ensures
            final(self).wf(),
            final(self)@ == old(self)@,
    {
        let ghost v0 = self@;
        let mut id: usize = 0;
        while id < self.nodes.len()
            invariant
                self.shape_ok(),
                self@ == v0,
                id <= self.nodes@.len(),
                forall|x: int| 0 <= x < id ==> node_max_ok(#[trigger] self.nodes@[x], self.counts@),
            decreases self.nodes@.len() - id,
        {
            proof {
                assert(node_shape_ok(self.nodes@, self.prefixes@, self.bs(), id as int));
            }
            let l = self.nodes[id].l;
            let r = self.nodes[id].r;
            let mut m = l;
            if l < r {
                let mut j = l + 1;
                while j < r
                    invariant
                        l <= m < j <= r,
                        r <= self.counts@.len(),
                        forall|k: int| l <= k < j ==> #[trigger] self.counts@[k] <= self.counts@[m as int],
                        forall|k: int| l <= k < m ==> #[trigger] self.counts@[k] < self.counts@[m as int],
                    decreases r - j,
                {
                    if self.counts[j] > self.counts[m] {
                        m = j;
                    }
                    j += 1;
                }
            }
            let ghost before = self.nodes@;
            self.nodes[id].max_idx = m;
            proof {
                assert forall|x: int| 0 <= x < self.nodes@.len() implies #[trigger] node_shape_ok(
                    self.nodes@,
                    self.prefixes@,
                    self.bs(),
                    x,
                ) by {
                    assert(node_shape_ok(before, self.prefixes@, self.bs(), x));
                }
                assert forall|x: int| 0 <= x < id + 1 implies node_max_ok(#[trigger] self.nodes@[x], self.counts@) by {
                    if x < id {
                        assert(self.nodes@[x] == before[x]);
                    }
                }
            }
            id += 1;
        }
    }

    /// Builds the trie over the distinct texts, sorted by their bytes, with
    /// each text counted as often as a history entry starts with it.
    pub fn new(texts: Vec<String>, hist: &Vec<(i32, String)>) -> (r: Trie)
        ensures
            r.wf(),
            r@.cursor == Some(Seq::<u8>::empty()),
            sorted_strict(r@.texts.map_values(|t: Seq<char>| encode_utf8(t))),
            forall|i: int| 0 <= i < r@.texts.len() ==> #[trigger] in_strings(texts@, r@.texts[i]),
            forall|j: int| 0 <= j < texts@.len() ==> r@.texts.contains(#[trigger] texts@[j]@),
            forall|k: int|
                0 <= k < r@.texts.len() ==> #[trigger] r@.counts[k] == hist_count(hist@, encode_utf8(r@.texts[k])),
    {
        let sorted_texts = sorted_unique(&texts);
        let n = sorted_texts.len();
        let mut bytes: Vec<Vec<u8>> = Vec::new();
        let mut max_len: usize = 0;
        let mut i: usize = 0;
        while i < n
            invariant
                n == sorted_texts@.len(),
                i <= n,
                bytes@.len() == i,
                forall|k: int| 0 <= k < i ==> #[trigger] bytes_view(bytes@)[k] == encode_utf8(sorted_texts@[k]@),
                forall|k: int| 0 <= k < i ==> #[trigger] bytes_view(bytes@)[k].len() <= max_len,
            decreases n - i,
        {
            let b = sorted_texts[i].as_str().as_bytes_vec();
            if b.len() > max_len {
                max_len = b.len();
            }
            let ghost prev = bytes@;
            bytes.push(b);
            proof {
                assert(bytes_view(bytes@)[i as int] == b@);
                assert forall|k: int| 0 <= k < i implies #[trigger] bytes_view(bytes@)[k] == bytes_view(prev)[k] by {
                    assert(bytes@[k] == prev[k]);
                }
            }
            i += 1;
        }
        let ghost bs = bytes_view(bytes@);
        proof {
            assert forall|a: int, b: int| 0 <= a < b < bs.len() implies byte_lt(bs[a], bs[b]) by {
                assert(bs[a] == encode_utf8(sorted_texts@[a]@));
                assert(bs[b] == encode_utf8(sorted_texts@[b]@));
            }
            assert forall|k: int| 0 <= k < bytes@.len() implies ((0 <= k < n) <==> has_prefix(
                #[trigger] bytes_view(bytes@)[k],
                Seq::<u8>::empty(),
            )) by {
                assert(bs[k].take(0) =~= Seq::<u8>::empty());
            }
        }
        let mut nodes: Vec<TrieNode> = Vec::new();
        let mut prefixes: Ghost<Seq<Seq<u8>>> = Ghost(Seq::empty());
        create(0, n, 0, Ghost(Seq::empty()), max_len, &bytes, &mut nodes, &mut prefixes);
        let mut counts: Vec<usize> = Vec::new();
        let mut i: usize = 0;
        while i < n
            invariant
                i <= n,
                counts@.len() == i,
                forall|k: int| 0 <= k < i ==> #[trigger] counts@[k] == 0,
            decreases n - i,
        {
            counts.push(0);
            i += 1;
        }
        let ghost sorted = sorted_texts@;
        let mut trie = Trie { texts: sorted_texts, counts, nodes, idx: Some(0), bytes, prefixes };
        let ghost tv0 = trie@.texts;
        proof {
            assert(trie.shape_ok());
            assert(tv0 == sorted.map_values(|s: String| s@));
        }
        trie.read_history(hist);
        trie.compute_max();
        proof {
            trie.lemma_view();
            let tb = trie@.texts.map_values(|t: Seq<char>| encode_utf8(t));
            assert forall|a: int, b: int| 0 <= a < b < tb.len() implies byte_lt(tb[a], tb[b]) by {
                assert(tb[a] == trie.bs()[a]);
                assert(tb[b] == trie.bs()[b]);
            }
            assert(trie@.texts == tv0);
            assert forall|i: int| 0 <= i < trie@.texts.len() implies #[trigger] in_strings(texts@, trie@.texts[i]) by {
                assert(trie@.texts[i] == sorted[i]@);
                let j = choose|j: int| 0 <= j < texts@.len() && #[trigger] sorted[i]@ == #[trigger] texts@[j]@;
                assert(texts@[j]@ == trie@.texts[i]);
            }
            assert forall|j: int| 0 <= j < texts@.len() implies trie@.texts.contains(#[trigger] texts@[j]@) by {
                let i = choose|i: int| 0 <= i < sorted.len() && #[trigger] sorted[i]@ == #[trigger] texts@[j]@;
                assert(trie@.texts[i] == sorted[i]@);
            }
        }
        let r = trie;
        r
    }

    /// Counts one more use of `cmd` if it is one of the texts (a count
    /// stays at `usize::MAX` once there), and moves `max_idx` to it on each
    /// node of its path where it now beats the current one. The cursor goes
    /// back to the root.
    pub fn add_cnt(&mut self, cmd: &String)
        requires
            old(self).wf(),
        ensures
            final(self).wf(),
            final(self)@.texts == old(self)@.texts,
            final(self)@.cursor == Some(Seq::<u8>::empty()),
            final(self)@.counts.len() == old(self)@.counts.len(),
            forall|k: int|
                0 <= k < old(self)@.counts.len() ==> #[trigger] final(self)@.counts[k] == if encode_utf8(
                    old(self)@.texts[k],
                ) == encode_utf8(cmd@) && old(self)@.counts[k] < usize::MAX {
                    old(self)@.counts[k] + 1
                } else {
                    old(self)@.counts[k]
                },
    {
        let q = cmd.as_str().as_bytes_vec();
        self.idx = Some(0);
        proof {
            self.lemma_view();
        }
        let ghost v0 = self@;
        let ghost c0 = self.counts@;
        let i = match self.find(&q) {
            Some(i) => i,
            None => {
                proof {
                    assert forall|k: int| 0 <= k < v0.counts.len() implies encode_utf8(v0.texts[k]) != encode_utf8(cmd@) by {
                        if encode_utf8(v0.texts[k]) == q@ {
                            assert(q@.take(q@.len() as int) =~= q@);
                        }
                    }
                }
                return;
            },
        };
        proof {
            assert forall|k: int| 0 <= k < v0.counts.len() implies (#[trigger] self.bs()[k] == q@ <==> (
            self.nodes@[i as int].end && k == self.nodes@[i as int].l)) by {
                self.lemma_found(i as int, q@, k);
            }
        }
        proof {
            assert(q@ == encode_utf8(cmd@));
            assert forall|j: int| 0 <= j < v0.counts.len() && encode_utf8(v0.texts[j]) == encode_utf8(cmd@)
                implies self.nodes@[i as int].end && j == self.nodes@[i as int].l by {
                assert(self.bs()[j] == encode_utf8(v0.texts[j]));
            }
        }
        if !self.nodes[i].end {
            return;
        }
        let k = self.nodes[i].l;
        proof {
            assert(node_shape_ok(self.nodes@, self.prefixes@, self.bs(), i as int));
        }
        if self.counts[k] == usize::MAX {
            return;
        }
        let c = self.counts[k] + 1;
        self.counts.set(k, c);
        let ghost c1 = self.counts@;
        proof {
            assert(self.bs()[k as int] == q@);
            assert forall|x: int| 0 <= x < self.nodes@.len() implies node_max_ok(
                #[trigger] self.nodes@[x],
                c1,
            ) || (has_prefix(q@, self.prefixes@[x]) && node_max_ok(self.nodes@[x], c0)) by {
                assert(node_shape_ok(self.nodes@, self.prefixes@, self.bs(), x));
                let nd = self.nodes@[x];
                if !(nd.l <= k < nd.r) {
                    lemma_untouched(nd, c0, c1, k as int);
                }
            }
        }
        let mut cur: usize = 0;
        let mut m: usize = 0;
        assert(q@.take(0) =~= Seq::<u8>::empty());
        loop
            invariant
                self.shape_ok(),
                self@.texts == v0.texts,
                self.idx == Some(0usize),
                self.counts@ == c1,
                c1 == c0.update(k as int, c),
                c == c0[k as int] + 1,
                self.bs()[k as int] == q@,
                k < c0.len(),
                m <= q@.len(),
                cur < self.nodes@.len(),
                self.prefixes@[cur as int] == q@.take(m as int),
                forall|x: int|
                    0 <= x < self.nodes@.len() ==> node_max_ok(#[trigger] self.nodes@[x], c1) || (
                    has_prefix(q@, self.prefixes@[x]) && self.prefixes@[x].len() >= m && node_max_ok(
                        self.nodes@[x],
                        c0,
                    )),
            ensures
                self.shape_ok(),
                self@.texts == v0.texts,
                self.idx == Some(0usize),
                self.counts@ == c1,
                forall|x: int| 0 <= x < self.nodes@.len() ==> node_max_ok(#[trigger] self.nodes@[x], c1),
            decreases q@.len() - m,
        {
            proof {
                assert(node_shape_ok(self.nodes@, self.prefixes@, self.bs(), cur as int));
                assert(has_prefix(self.bs()[k as int], q@.take(m as int)));
            }
            let ghost before = self.nodes@;
            let mx = self.nodes[cur].max_idx;
            let bump = mx != k && (c > self.counts[mx] || (c == self.counts[mx] && k < mx));
            let ghost node = before[cur as int];
            proof {
                if !node_max_ok(node, c1) {
                    lemma_bump(node, c0, c1, k as int);
                }
            }
            if bump {
                self.nodes[cur].max_idx = k;
            }
            proof {
                assert forall|x: int| 0 <= x < self.nodes@.len() implies #[trigger] node_shape_ok(
                    self.nodes@,
                    self.prefixes@,
                    self.bs(),
                    x,
                ) by {
                    assert(node_shape_ok(before, self.prefixes@, self.bs(), x));
                }
                assert forall|x: int|
                    0 <= x < self.nodes@.len() implies node_max_ok(#[trigger] self.nodes@[x], c1) || (
                    has_prefix(q@, self.prefixes@[x]) && self.prefixes@[x].len() >= m + 1
                        && node_max_ok(self.nodes@[x], c0)) by {
                    if x != cur {
                        assert(self.nodes@[x] == before[x]);
                        if !node_max_ok(before[x], c1) && self.prefixes@[x].len() == m {
                            assert(self.prefixes@[x] =~= q@.take(m as int));
                            if x < cur {
                                assert(self.prefixes@[x] != self.prefixes@[cur as int]);
                            } else {
                                assert(self.prefixes@[cur as int] != self.prefixes@[x]);
                            }
                        }
                    }
                }
            }
            if m == q.len() {
                proof {
                    assert forall|x: int| 0 <= x < self.nodes@.len() implies node_max_ok(
                        #[trigger] self.nodes@[x],
                        c1,
                    ) by {
                        if !node_max_ok(self.nodes@[x], c1) {
                            assert(has_prefix(q@, self.prefixes@[x]));
                        }
                    }
                }
                break;
            }
            let b = q[m];
            proof {
                assert(self.bs()[k as int].len() > self.prefixes@[cur as int].len());
                assert(self.bs()[k as int][m as int] == b);
                assert(node_shape_ok(self.nodes@, self.prefixes@, self.bs(), cur as int));
                assert(q@.take(m + 1) =~= q@.take(m as int).push(b));
            }
            cur = match self.nodes[cur].children.get(&b) {
                Some(ch) => *ch,
                None => {
                    break;
                },
            };
            m += 1;
        }
        proof {
            self.lemma_view();
            assert forall|j: int| 0 <= j < v0.counts.len() implies #[trigger] self@.counts[j] == if encode_utf8(
                v0.texts[j],
            ) == encode_utf8(cmd@) && v0.counts[j] < usize::MAX {
                v0.counts[j] + 1
            } else {
                v0.counts[j]
            } by {
                assert(self.bs()[j] == encode_utf8(v0.texts[j]));
            }
        }
    }

    /// What a well-formed trie guarantees of its view: one count per text,
    /// and the texts distinct and sorted by their bytes.
    pub proof fn lemma_wf(&self)
        requires
            self.wf(),
        ensures
            self@.counts.len() == self@.texts.len(),
            sorted_strict(self@.texts.map_values(|t: Seq<char>| encode_utf8(t))),
    {
        self.lemma_view();
        let tb = self@.texts.map_values(|t: Seq<char>| encode_utf8(t));
        assert forall|a: int, b: int| 0 <= a < b < tb.len() implies byte_lt(tb[a], tb[b]) by {
            assert(tb[a] == self.bs()[a]);
            assert(tb[b] == self.bs()[b]);
        }
    }

    pub fn reset(&mut self)
        requires
            old(self).wf(),
        ensures
            final(self).wf(),
            final(self)@.texts == old(self)@.texts,
            final(self)@.counts == old(self)@.counts,
            final(self)@.cursor == Some(Seq::<u8>::empty()),
    {
        self.idx = Some(0);
    }
}

proof fn lemma_char_bytes_nonempty(c: char)
    ensures
        encode_utf8(seq![c]).len() > 0,
        encode_utf8(seq![c]) == vstd::utf8::encode_scalar(c as u32),
{
    assert(seq![c].drop_first() =~= Seq::<char>::empty());
    assert(encode_utf8(Seq::<char>::empty()) =~= Seq::<u8>::empty());
    assert(encode_utf8(seq![c]) =~= vstd::utf8::encode_scalar(c as u32));
}

proof fn lemma_matches_shorter(texts: Seq<Seq<char>>, x: Seq<u8>, y: Seq<u8>)
    requires
        matches_any(texts, x + y),
    ensures
        matches_any(texts, x),
{
    let k = choose|k: int| 0 <= k < texts.len() && has_prefix(encode_utf8(texts[k]), x + y);
    let t = encode_utf8(texts[k]);
    assert(t.take(x.len() as int) =~= t.take((x + y).len() as int).take(x.len() as int));
    assert((x + y).take(x.len() as int) =~= x);
    assert(has_prefix(t, x));
}

proof fn lemma_walk_none(texts: Seq<Seq<char>>, cs: Seq<char>)
    ensures
        walk_chars(texts, None, cs) == None::<Seq<u8>>,
    decreases cs.len(),
{
    if cs.len() > 0 {
        lemma_walk_none(texts, cs.drop_first());
    }
}

/// Searching characters one at a time matches what searching all their bytes
/// at once matches.
pub proof fn lemma_walk_chars(texts: Seq<Seq<char>>, p: Seq<u8>, cs: Seq<char>)
    ensures
        walk_chars(texts, Some(p), cs) == (if cs.len() == 0 {
            Some(p)
        } else if matches_any(texts, p + encode_utf8(cs)) {
            Some(p + encode_utf8(cs))
        } else {
            None
        }),
    decreases cs.len(),
{
    if cs.len() > 0 {
        let c = cs[0];
        let e = encode_utf8(seq![c]);
        lemma_char_bytes_nonempty(c);
        let rest = cs.drop_first();
        assert(encode_utf8(cs) == e + encode_utf8(rest));
        assert(p + encode_utf8(cs) =~= (p + e) + encode_utf8(rest));
        if matches_any(texts, p + e) {
            lemma_walk_chars(texts, p + e, rest);
            if rest.len() == 0 {
                assert(encode_utf8(rest) =~= Seq::<u8>::empty());
                assert((p + e) + encode_utf8(rest) =~= p + e);
            }
        } else {
            lemma_walk_none(texts, rest);
            if matches_any(texts, p + encode_utf8(cs)) {
                lemma_matches_shorter(texts, p + e, encode_utf8(rest));
            }
        }
    }
}

/// Once a character matches nothing, the search matches nothing, whatever
/// follows, until it is reset.
pub proof fn law_dead_end(texts: Seq<Seq<char>>, p: Seq<u8>, c: char, cs: Seq<char>)
    requires
        !matches_any(texts, p + encode_utf8(seq![c])),
    ensures
        walk(texts, Some(p), encode_utf8(seq![c])) == None::<Seq<u8>>,
        walk_chars(texts, Some(p), seq![c] + cs) == None::<Seq<u8>>,
{
    lemma_char_bytes_nonempty(c);
    assert((seq![c] + cs)[0] == c);
    assert((seq![c] + cs).drop_first() =~= cs);
    lemma_walk_none(texts, cs);
}

/// Searching the characters of a text from the root ends on a node whose
/// range holds that text.
pub proof fn law_text_in_range(v: TrieV, k: int)
    requires
        0 <= k < v.texts.len(),
    ensures
        walk_chars(v.texts, Some(Seq::<u8>::empty()), v.texts[k]) == Some(encode_utf8(v.texts[k])),
        forall|l: int, h: int| is_range(v, encode_utf8(v.texts[k]), l, h) ==> l <= k < h,
{
    let t = encode_utf8(v.texts[k]);
    lemma_walk_chars(v.texts, Seq::<u8>::empty(), v.texts[k]);
    assert(Seq::<u8>::empty() + t =~= t);
    assert(t.take(t.len() as int) =~= t);
    assert(has_prefix(t, t));
    if v.texts[k].len() == 0 {
        assert(t =~= Seq::<u8>::empty());
    } else {
        assert(matches_any(v.texts, t));
    }
}

/// A text that beats every other match on count comes first in the list of
/// matches.
pub proof fn law_most_used_first(v: TrieV, p: Seq<u8>, k: int, list: Seq<Seq<char>>)
    requires
        is_match_list(TrieV { cursor: Some(p), ..v }, list),
        0 <= k < v.texts.len(),
        v.counts.len() == v.texts.len(),
        has_prefix(encode_utf8(v.texts[k]), p),
        forall|j: int|
            0 <= j < v.texts.len() && j != k && has_prefix(encode_utf8(v.texts[j]), p) ==> #[trigger] v.counts[j]
                < v.counts[k],
    ensures
        list.len() > 0,
        list[0] == v.texts[k],
{
    let w = TrieV { cursor: Some(p), ..v };
    assert(matches_any(v.texts, p));
    let (l, h, m) = choose|l: int, h: int, m: int|
        is_range(w, p, l, h) && is_best(w, p, m) && #[trigger] match_order(w.texts, l, h, m) == list;
    if m != k {
        assert(w.counts[k] <= w.counts[m]);
    }
    assert(list[0] == v.texts[m]);
}

/// Searching the characters `p` from the root ends on a node whose range
/// holds every text that starts with `p`.
pub proof fn law_prefix_in_range(v: TrieV, p: Seq<char>, k: int)
    requires
        0 <= k < v.texts.len(),
        p.len() <= v.texts[k].len(),
        v.texts[k].take(p.len() as int) == p,
    ensures
        walk_chars(v.texts, Some(Seq::<u8>::empty()), p) == Some(encode_utf8(p)),
        forall|l: int, h: int| is_range(v, encode_utf8(p), l, h) ==> l <= k < h,
{
    let t = v.texts[k];
    let rest = t.skip(p.len() as int);
    assert(t =~= p + rest);
    lemma_encode_concat(p, rest);
    let e = encode_utf8(t);
    assert(e.take(encode_utf8(p).len() as int) =~= encode_utf8(p));
    assert(has_prefix(e, encode_utf8(p)));
    lemma_walk_chars(v.texts, Seq::<u8>::empty(), p);
    assert(Seq::<u8>::empty() + encode_utf8(p) =~= encode_utf8(p));
    if p.len() == 0 {
        assert(encode_utf8(p) =~= Seq::<u8>::empty());
    } else {
        assert(matches_any(v.texts, encode_utf8(p)));
    }
}

} // verus!
