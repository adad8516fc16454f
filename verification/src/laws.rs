//! Laws the router obeys, stated over the models and proved once for
//! all trees, patterns and paths.

use vstd::prelude::*;
use crate::route::params_map;
use crate::router::spec_match;
use crate::router::spec_register;
use crate::tree::empty_node;
use crate::tree::is_wildcard_seg;
use crate::tree::model_with_child;
use crate::tree::model_with_handler;
use crate::tree::model_with_wildcard;
use crate::tree::NodeModel;

verus! {

/// What one `add_child` call does to the model: the existing child
/// index when the edge exists, a fresh node otherwise.
pub open spec fn spec_add_child<H>(t: Seq<NodeModel<H>>, n: int, seg: Seq<char>) -> (
    Seq<NodeModel<H>>,
    int,
) {
    if t[n].children.contains_key(seg) {
        (t, t[n].children[seg])
    } else {
        (model_with_child(t, n, seg), t.len() as int)
    }
}

/// Idempotent registration: linking the same literal segment twice
/// from the same node yields the same child index both times, and the
/// second call leaves the tree unchanged — no duplicate node is made.
pub proof fn lemma_add_child_idempotent<H>(t: Seq<NodeModel<H>>, n: int, seg: Seq<char>)
    requires
        0 <= n < t.len(),
    ensures
        ({
            let (t1, c1) = spec_add_child(t, n, seg);
            let (t2, c2) = spec_add_child(t1, n, seg);
            c2 == c1 && t2 == t1
        }),
{
    if !t[n].children.contains_key(seg) {
        let t1 = model_with_child(t, n, seg);
        assert(t1[n].children.contains_key(seg));
        assert(t1[n].children[seg] == t.len() as int);
    }
}

/// `t` realizes, from `node`, exactly the chain of the literal
/// segments `segs`, with `h` at its end: each chain node has the one
/// literal edge, no wildcard and no handler, and the terminal node
/// holds `h`.
pub open spec fn literal_chain<H>(
    t: Seq<NodeModel<H>>,
    node: int,
    segs: Seq<Seq<char>>,
    h: H,
) -> bool
    decreases segs.len(),
{
    if segs.len() == 0 {
        t[node].handler == Some(h)
    } else {
        let c = t[node].children[segs[0]];
        &&& t[node].children == Map::<Seq<char>, int>::empty().insert(segs[0], c)
        &&& t[node].wildcard is None
        &&& t[node].handler is None
        &&& 0 <= c < t.len()
        &&& literal_chain(t, c, segs.skip(1), h)
    }
}

/// Registering literal segments below a fresh node appends one node
/// per segment, touches no other existing node, and leaves a literal
/// chain.
proof fn lemma_register_fresh<H>(t: Seq<NodeModel<H>>, node: int, segs: Seq<Seq<char>>, h: H)
    requires
        0 <= node < t.len(),
        t[node] == empty_node::<H>(),
        forall|i: int| 0 <= i < segs.len() ==> !is_wildcard_seg(#[trigger] segs[i]),
    ensures
        spec_register(t, node, segs, h) matches Some(t2) && {
            &&& t2.len() == t.len() + segs.len()
            &&& forall|m: int| 0 <= m < t.len() && m != node ==> t2[m] == t[m]
            &&& literal_chain(t2, node, segs, h)
        },
    decreases segs.len(),
{
    if segs.len() == 0 {
        let t2 = model_with_handler(t, node, h);
        assert(spec_register(t, node, segs, h) == Some(t2));
        assert(literal_chain(t2, node, segs, h));
    } else {
        let seg = segs[0];
        assert(!t[node].children.contains_key(seg));
        let t1 = model_with_child(t, node, seg);
        let c = t.len() as int;
        assert(t1[c] == empty_node::<H>());
        assert(forall|i: int|
            0 <= i < segs.skip(1).len() ==> !is_wildcard_seg(#[trigger] segs.skip(1)[i]));
        lemma_register_fresh(t1, c, segs.skip(1), h);
        let t2 = spec_register(t1, c, segs.skip(1), h)->Some_0;
        assert(spec_register(t, node, segs, h) == Some(t2));
        assert(t2[node] == t1[node]);
        assert(t1[node].children =~= Map::<Seq<char>, int>::empty().insert(seg, c));
        assert(literal_chain(t2, node, segs, h));
    }
}

/// Walking a literal chain with its own segments reaches the node
/// that holds the handler and binds nothing.
proof fn lemma_match_chain_exact<H>(
    t: Seq<NodeModel<H>>,
    node: int,
    segs: Seq<Seq<char>>,
    params: Map<Seq<char>, Seq<char>>,
    h: H,
)
    requires
        literal_chain(t, node, segs, h),
    ensures
        ({
            let (n2, p2) = spec_match(t, node, segs, params);
            t[n2].handler == Some(h) && p2 == params
        }),
    decreases segs.len(),
{
    if segs.len() > 0 {
        let c = t[node].children[segs[0]];
        assert(t[node].children.contains_key(segs[0]));
        lemma_match_chain_exact(t, c, segs.skip(1), params, h);
    }
}

/// Walking a literal chain with segments that diverge at position `k`
/// fails: the walk resets to the root and binds nothing.
proof fn lemma_match_chain_miss<H>(
    t: Seq<NodeModel<H>>,
    node: int,
    segs: Seq<Seq<char>>,
    segs2: Seq<Seq<char>>,
    params: Map<Seq<char>, Seq<char>>,
    h: H,
    k: int,
)
    requires
        literal_chain(t, node, segs, h),
        segs2.len() == segs.len(),
        0 <= k < segs.len(),
        segs2[k] != segs[k],
        forall|j: int| 0 <= j < k ==> segs2[j] == segs[j],
    ensures
        spec_match(t, node, segs2, params) == (0int, params),
    decreases segs.len(),
{
    let c = t[node].children[segs[0]];
    if k == 0 {
        assert(!t[node].children.contains_key(segs2[0]));
    } else {
        assert(segs2[0] == segs[0]);
        assert(t[node].children.contains_key(segs[0]));
        lemma_match_chain_miss(t, c, segs.skip(1), segs2.skip(1), params, h, k - 1);
    }
}

/// Exact dispatch of a wildcard-free pattern: registering it in an
/// empty tree and matching the very same segments returns the
/// registered handler's node, with no parameters bound.
pub proof fn lemma_literal_route_found<H>(segs: Seq<Seq<char>>, h: H)
    requires
        forall|i: int| 0 <= i < segs.len() ==> !is_wildcard_seg(#[trigger] segs[i]),
    ensures
        spec_register(seq![empty_node::<H>()], 0, segs, h) matches Some(t) && {
            let (n, p) = spec_match(t, 0, segs, Map::<Seq<char>, Seq<char>>::empty());
            t[n].handler == Some(h) && p == Map::<Seq<char>, Seq<char>>::empty()
        },
{
    lemma_register_fresh(seq![empty_node::<H>()], 0, segs, h);
    let t = spec_register(seq![empty_node::<H>()], 0, segs, h)->Some_0;
    lemma_match_chain_exact(t, 0, segs, Map::<Seq<char>, Seq<char>>::empty(), h);
}

/// Not-found dispatch of a wildcard-free pattern: with only that
/// pattern registered, a path of the same length differing in one
/// segment reaches a node with no handler.
pub proof fn lemma_literal_route_miss<H>(segs: Seq<Seq<char>>, segs2: Seq<Seq<char>>, h: H, k: int)
    requires
        forall|i: int| 0 <= i < segs.len() ==> !is_wildcard_seg(#[trigger] segs[i]),
        segs2.len() == segs.len(),
        0 <= k < segs.len(),
        segs2[k] != segs[k],
        forall|j: int| 0 <= j < k ==> segs2[j] == segs[j],
    ensures
        spec_register(seq![empty_node::<H>()], 0, segs, h) matches Some(t) && {
            let (n, p) = spec_match(t, 0, segs2, Map::<Seq<char>, Seq<char>>::empty());
            t[n].handler is None && p == Map::<Seq<char>, Seq<char>>::empty()
        },
{
    lemma_register_fresh(seq![empty_node::<H>()], 0, segs, h);
    let t = spec_register(seq![empty_node::<H>()], 0, segs, h)->Some_0;
    lemma_match_chain_miss(t, 0, segs, segs2, Map::<Seq<char>, Seq<char>>::empty(), h, k);
    assert(t[0].handler is None);
}

/// Parameter binding: registering the pattern whose segments are a
/// literal, a named-parameter wildcard, and a literal, and dispatching
/// a path that agrees on the literals, binds the wildcard's name to
/// the path's middle segment and reaches the handler — whatever that
/// middle segment is.
pub proof fn lemma_param_binding<H>(s1: Seq<char>, w: Seq<char>, s3: Seq<char>, x: Seq<char>, h: H)
    requires
        !is_wildcard_seg(s1),
        !is_wildcard_seg(s3),
        w.len() > 0 && w[0] == ':',
    ensures
        spec_register(seq![empty_node::<H>()], 0, seq![s1, w, s3], h) matches Some(t) && {
            let (n, p) = spec_match(t, 0, seq![s1, x, s3], Map::<Seq<char>, Seq<char>>::empty());
            &&& t[n].handler == Some(h)
            &&& p == Map::<Seq<char>, Seq<char>>::empty().insert(w.skip(1), x)
        },
{
    let t0 = seq![empty_node::<H>()];
    let segs = seq![s1, w, s3];
    let t1 = model_with_child(t0, 0, s1);
    let t2 = model_with_wildcard(t1, 1, w);
    let t3 = model_with_child(t2, 2, s3);
    let t4 = model_with_handler(t3, 3, h);
    assert(segs.skip(1) =~~= seq![w, s3]);
    assert(segs.skip(1).skip(1) =~~= seq![s3]);
    assert(seq![s3].skip(1) =~~= Seq::<Seq<char>>::empty());
    assert(!t0[0].children.contains_key(s1));
    assert(is_wildcard_seg(w));
    assert(t1[1].wildcard is None);
    assert(!t2[2].children.contains_key(s3));
    assert(spec_register(t0, 0, segs, h) == spec_register(t1, 1, seq![w, s3], h));
    assert(spec_register(t1, 1, seq![w, s3], h) == spec_register(t2, 2, seq![s3], h));
    assert(spec_register(t2, 2, seq![s3], h) == spec_register(
        t3,
        3,
        Seq::<Seq<char>>::empty(),
        h,
    ));
    assert(spec_register(t3, 3, Seq::<Seq<char>>::empty(), h) == Some(t4));
    let path = seq![s1, x, s3];
    let p0 = Map::<Seq<char>, Seq<char>>::empty();
    let p1 = p0.insert(w.skip(1), x);
    assert(path.skip(1) =~~= seq![x, s3]);
    assert(path.skip(1).skip(1) =~~= seq![s3]);
    assert(t4[0].children.contains_key(s1) && t4[0].children[s1] == 1);
    assert(!t4[1].children.contains_key(x));
    assert(t4[1].wildcard == Some((w, 2int)));
    assert(t4[2].children.contains_key(s3) && t4[2].children[s3] == 3);
    assert(spec_match(t4, 0, path, p0) == spec_match(t4, 1, seq![x, s3], p0));
    assert(spec_match(t4, 1, seq![x, s3], p0) == spec_match(t4, 2, seq![s3], p1));
    assert(spec_match(t4, 2, seq![s3], p1) == spec_match(t4, 3, Seq::<Seq<char>>::empty(), p1));
    assert(spec_match(t4, 3, Seq::<Seq<char>>::empty(), p1) == (3int, p1));
    assert(t4[3].handler == Some(h));
}

/// Literal over wildcard: with both a wildcard route and a literal
/// route registered below the same first segment, dispatching the
/// literal path reaches the literal route's handler, not the
/// wildcard's, and binds nothing.
pub proof fn lemma_literal_over_wildcard<H>(su: Seq<char>, w: Seq<char>, sa: Seq<char>, h1: H, h2: H)
    requires
        !is_wildcard_seg(su),
        is_wildcard_seg(w),
        !is_wildcard_seg(sa),
    ensures
        spec_register(seq![empty_node::<H>()], 0, seq![su, w], h1) matches Some(ta)
            && spec_register(ta, 0, seq![su, sa], h2) matches Some(tb) && {
            let (n, p) = spec_match(tb, 0, seq![su, sa], Map::<Seq<char>, Seq<char>>::empty());
            &&& tb[n].handler == Some(h2)
            &&& p == Map::<Seq<char>, Seq<char>>::empty()
        },
{
    let t0 = seq![empty_node::<H>()];
    let t1 = model_with_child(t0, 0, su);
    let t2 = model_with_wildcard(t1, 1, w);
    let ta = model_with_handler(t2, 2, h1);
    assert(seq![su, w].skip(1) =~~= seq![w]);
    assert(seq![w].skip(1) =~~= Seq::<Seq<char>>::empty());
    assert(!t0[0].children.contains_key(su));
    assert(t1[1].wildcard is None);
    assert(spec_register(t0, 0, seq![su, w], h1) == spec_register(t1, 1, seq![w], h1));
    assert(spec_register(t1, 1, seq![w], h1) == spec_register(
        t2,
        2,
        Seq::<Seq<char>>::empty(),
        h1,
    ));
    assert(spec_register(t2, 2, Seq::<Seq<char>>::empty(), h1) == Some(ta));
    let t3 = model_with_child(ta, 1, sa);
    let tb = model_with_handler(t3, 3, h2);
    assert(seq![su, sa].skip(1) =~~= seq![sa]);
    assert(seq![sa].skip(1) =~~= Seq::<Seq<char>>::empty());
    assert(ta[0].children.contains_key(su) && ta[0].children[su] == 1);
    assert(!ta[1].children.contains_key(sa));
    assert(spec_register(ta, 0, seq![su, sa], h2) == spec_register(ta, 1, seq![sa], h2));
    assert(spec_register(ta, 1, seq![sa], h2) == spec_register(
        t3,
        3,
        Seq::<Seq<char>>::empty(),
        h2,
    ));
    assert(spec_register(t3, 3, Seq::<Seq<char>>::empty(), h2) == Some(tb));
    let p0 = Map::<Seq<char>, Seq<char>>::empty();
    assert(tb[0].children.contains_key(su) && tb[0].children[su] == 1);
    assert(tb[1].children.contains_key(sa) && tb[1].children[sa] == 3);
    assert(spec_match(tb, 0, seq![su, sa], p0) == spec_match(tb, 1, seq![sa], p0));
    assert(spec_match(tb, 1, seq![sa], p0) == spec_match(tb, 3, Seq::<Seq<char>>::empty(), p0));
    assert(tb[3].handler == Some(h2));
}

/// Round trip through a route's parameters: the value of the last
/// pair that binds a name is the value read back for that name.
pub proof fn lemma_params_roundtrip(pairs: Seq<(String, String)>, i: int)
    requires
        0 <= i < pairs.len(),
        forall|j: int| i < j < pairs.len() ==> (#[trigger] pairs[j]).0@ != pairs[i].0@,
    ensures
        params_map(pairs).contains_key(pairs[i].0@),
        params_map(pairs)[pairs[i].0@] == pairs[i].1@,
    decreases pairs.len(),
{
    if i == pairs.len() - 1 {
    } else {
        assert(pairs.drop_last()[i] == pairs[i]);
        assert(forall|j: int|
            i < j < pairs.drop_last().len() ==> (#[trigger] pairs.drop_last()[j]) == pairs[j]);
        lemma_params_roundtrip(pairs.drop_last(), i);
        assert(pairs.last().0@ != pairs[i].0@);
    }
}

} // verus!
