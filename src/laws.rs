use vstd::prelude::*;

use crate::matcher::{
    accepts,
    acceptor,
    all_combos,
    all_combos_upto,
    anchor_combos_upto,
    combos_of,
    combos_of_anchors,
    expand_tag,
    expansion_of,
    expansions_upto,
    tag_expansions,
    find_all_spec,
    fracture_spec,
    lemma_filter_none,
    min_len,
    pair_combos,
    position_ok,
    stitch_valid,
    stitch_wf,
    stitches_spec,
    stitches_upto,
    validity_ok,
    whole_spec,
    ComboView,
    Query,
    StitchView,
};
use crate::position::Position;

verus! {

/// When a fracture succeeds, its pieces are the aligned slices of the two
/// words: for `Left` the overlap is the end of `given` and the start of
/// `found`, for `Right` the start of `given` and the end of `found`, and each
/// remainder is what its word holds besides the overlap.
pub proof fn lemma_fracture_pieces(given: Seq<u8>, found: Seq<u8>, pos: Position, k: int)
    requires
        1 <= k < min_len(given, found),
        fracture_spec(given, found, pos, k) is Some,
    ensures
        match (pos, fracture_spec(given, found, pos, k)) {
            (Position::Left, Some(t)) => given.subrange(given.len() - k, given.len() as int)
                == found.subrange(0, k) && t.0 == found.subrange(0, k) && t.1 == given.subrange(
                0,
                given.len() - k,
            ) && t.2 == found.subrange(k, found.len() as int),
            (Position::Right, Some(t)) => given.subrange(0, k) == found.subrange(
                found.len() - k,
                found.len() as int,
            ) && t.0 == given.subrange(0, k) && t.1 == given.subrange(k, given.len() as int) && t.2
                == found.subrange(0, found.len() - k),
            _ => false,
        },
{
}

/// The stitched word is the two words joined at the overlap, with one copy
/// of it: for `Left`, `given` then the rest of `found`; for `Right`, the rest
/// of `found` then `given`.
pub proof fn lemma_whole_reconstructs(s: StitchView)
    requires
        stitch_wf(s),
    ensures
        ({
            let w = whole_spec(s);
            let k = s.isect.len() as int;
            match s.pos {
                Position::Left => w.0 + w.1 == s.given + s.found.subrange(k, s.found.len() as int)
                    && w.0 + w.1 == s.rem_given + s.found,
                Position::Right => w.0 + w.1 == s.found.subrange(0, s.found.len() - k) + s.given
                    && w.0 + w.1 == s.found + s.rem_given,
            }
        }),
{
    let k = s.isect.len() as int;
    let g = s.given;
    let f = s.found;
    match s.pos {
        Position::Left => {
            assert(g =~= g.subrange(0, g.len() - k) + g.subrange(g.len() - k, g.len() as int));
            assert(f =~= f.subrange(0, k) + f.subrange(k, f.len() as int));
            assert(s.given + s.rem_found =~= s.rem_given + s.found);
        },
        Position::Right => {
            assert(g =~= g.subrange(0, k) + g.subrange(k, g.len() as int));
            assert(f =~= f.subrange(0, f.len() - k) + f.subrange(f.len() - k, f.len() as int));
            assert(s.rem_found + s.given =~= s.found + s.rem_given);
        },
    }
}

/// What holds of every combo that a query produces: its stitch is well
/// formed and its validity flag is that of its stitch.
pub open spec fn combo_ok(dict: Seq<Seq<u8>>, c: ComboView) -> bool {
    stitch_wf(c.stitch) && c.valid == stitch_valid(dict, c.stitch)
}

proof fn lemma_stitches_wf(given: Seq<u8>, found: Seq<u8>, pos: Position, n: int)
    requires
        n <= min_len(given, found),
    ensures
        forall|i: int|
            0 <= i < stitches_upto(given, found, pos, n).len() ==> stitch_wf(
                #[trigger] stitches_upto(given, found, pos, n)[i],
            ),
    decreases n,
{
    if n > 1 {
        lemma_stitches_wf(given, found, pos, n - 1);
        let k = n - 1;
        let a = stitches_upto(given, found, pos, n - 1);
        let b = crate::matcher::stitch_at(given, found, pos, k);
        match fracture_spec(given, found, pos, k) {
            Some(t) => {
                assert(t.0.len() == k);
                assert(stitch_wf(b[0]));
            },
            None => {},
        }
        assert forall|i: int| 0 <= i < (a + b).len() implies stitch_wf(#[trigger] (a + b)[i]) by {
            if i < a.len() {
                assert(stitch_wf(a[i]));
            } else {
                assert(stitch_wf(b[i - a.len()]));
            }
        }
    }
}

proof fn lemma_pair_ok(dict: Seq<Seq<u8>>, anchor: Seq<u8>, tag: Option<Position>, found: Seq<u8>)
    ensures
        forall|i: int|
            0 <= i < pair_combos(dict, anchor, tag, found).len() ==> combo_ok(
                dict,
                #[trigger] pair_combos(dict, anchor, tag, found)[i],
            ),
{
    let m = min_len(anchor, found);
    lemma_stitches_wf(anchor, found, Position::Left, m);
    lemma_stitches_wf(anchor, found, Position::Right, m);
    let l = stitches_spec(anchor, found, Position::Left);
    let r = stitches_spec(anchor, found, Position::Right);
    assert forall|i: int| 0 <= i < pair_combos(dict, anchor, tag, found).len() implies combo_ok(
        dict,
        #[trigger] pair_combos(dict, anchor, tag, found)[i],
    ) by {
        if i < l.len() {
            assert(stitch_wf(l[i]));
        } else {
            assert(stitch_wf(r[i - l.len()]));
        }
    }
}

proof fn lemma_anchor_ok(dict: Seq<Seq<u8>>, anchor: Seq<u8>, tag: Option<Position>, n: int)
    ensures
        forall|i: int|
            0 <= i < anchor_combos_upto(dict, anchor, tag, n).len() ==> combo_ok(
                dict,
                #[trigger] anchor_combos_upto(dict, anchor, tag, n)[i],
            ),
    decreases n,
{
    if n > 0 {
        lemma_anchor_ok(dict, anchor, tag, n - 1);
        lemma_pair_ok(dict, anchor, tag, dict[n - 1]);
        let a = anchor_combos_upto(dict, anchor, tag, n - 1);
        let b = pair_combos(dict, anchor, tag, dict[n - 1]);
        assert forall|i: int| 0 <= i < (a + b).len() implies combo_ok(dict, #[trigger] (a + b)[i]) by {
            if i < a.len() {
                assert(combo_ok(dict, a[i]));
            } else {
                assert(combo_ok(dict, b[i - a.len()]));
            }
        }
    }
}

proof fn lemma_all_ok(dict: Seq<Seq<u8>>, anchors: Seq<(Seq<u8>, Option<Position>)>, n: int)
    ensures
        forall|i: int|
            0 <= i < all_combos_upto(dict, anchors, n).len() ==> combo_ok(
                dict,
                #[trigger] all_combos_upto(dict, anchors, n)[i],
            ),
    decreases n,
{
    if n > 0 {
        lemma_all_ok(dict, anchors, n - 1);
        lemma_anchor_ok(dict, anchors[n - 1].0, anchors[n - 1].1, dict.len() as int);
        let a = all_combos_upto(dict, anchors, n - 1);
        let b = anchor_combos_upto(dict, anchors[n - 1].0, anchors[n - 1].1, dict.len() as int);
        assert forall|i: int| 0 <= i < (a + b).len() implies combo_ok(dict, #[trigger] (a + b)[i]) by {
            if i < a.len() {
                assert(combo_ok(dict, a[i]));
            } else {
                assert(combo_ok(dict, b[i - a.len()]));
            }
        }
    }
}

/// Every combo that a query produces is a well-formed stitch of its anchor
/// and found word, and is valid exactly when both of its remainders are
/// empty or dictionary words.
pub proof fn lemma_find_all_sound(q: Query)
    ensures
        forall|i: int|
            0 <= i < find_all_spec(q).len() ==> combo_ok(q.dict, #[trigger] find_all_spec(q)[i]),
{
    broadcast use vstd::seq_lib::group_filter_ensures;

    let s = all_combos(q);
    lemma_all_ok(q.dict, crate::matcher::anchors_spec(q), crate::matcher::anchors_spec(q).len() as int);
    assert forall|i: int| 0 <= i < find_all_spec(q).len() implies combo_ok(
        q.dict,
        #[trigger] find_all_spec(q)[i],
    ) by {
        let e = find_all_spec(q)[i];
        assert(s.filter(acceptor(q)).contains(e));
        s.lemma_filter_contains_rev(acceptor(q), e);
        let j = choose|j: int| 0 <= j < s.len() && s[j] == e;
        assert(combo_ok(q.dict, s[j]));
    }
}

proof fn lemma_filter_all<A>(s: Seq<A>, p: spec_fn(A) -> bool)
    requires
        forall|i: int| 0 <= i < s.len() ==> #[trigger] p(s[i]),
    ensures
        s.filter(p) == s,
    decreases s.len(),
{
    reveal(Seq::filter);
    if s.len() > 0 {
        assert(p(s[s.len() - 1]));
        lemma_filter_all(s.drop_last(), p);
        assert(s.drop_last().push(s.last()) =~= s);
    }
}

proof fn lemma_filter_and<A>(
    s: Seq<A>,
    pa: spec_fn(A) -> bool,
    pb: spec_fn(A) -> bool,
    p: spec_fn(A) -> bool,
)
    requires
        forall|c: A| #[trigger] p(c) == (pa(c) && pb(c)),
    ensures
        s.filter(pa).filter(pb) == s.filter(p),
    decreases s.len(),
{
    reveal(Seq::filter);
    if s.len() > 0 {
        lemma_filter_and(s.drop_last(), pa, pb, p);
        let x = s.last();
        if pa(x) {
            s.drop_last().filter(pa).lemma_filter_push(x, pb);
        }
    }
}

/// The alignment and validity filters act independently: a filtered query
/// gives the unfiltered query's combos that pass the alignment filter and
/// the validity filter, in the same order.
pub proof fn lemma_filters_conjoin(q: Query)
    ensures
        find_all_spec(q) == find_all_spec(
            Query { valid: None, pos: None, ..q },
        ).filter(|c: ComboView| position_ok(q.pos, c)).filter(
            |c: ComboView| validity_ok(q.valid, c),
        ),
{
    let q0 = Query { valid: None, pos: None, ..q };
    let s = all_combos(q);
    assert(all_combos(q0) == s);
    assert forall|i: int| 0 <= i < s.len() implies #[trigger] acceptor(q0)(s[i]) by {}
    lemma_filter_all(s, acceptor(q0));
    let pa = |c: ComboView| position_ok(q.pos, c);
    let pb = |c: ComboView| validity_ok(q.valid, c);
    assert forall|c: ComboView| #[trigger] acceptor(q)(c) == (pa(c) && pb(c)) by {
        assert(acceptor(q)(c) == accepts(q, c));
    }
    lemma_filter_and(s, pa, pb, acceptor(q));
}

/// A query gives one result: two runs of it agree, item for item and so
/// also as multisets.
pub proof fn lemma_find_all_deterministic(q: Query, r1: Seq<ComboView>, r2: Seq<ComboView>)
    requires
        r1 == find_all_spec(q),
        r2 == find_all_spec(q),
    ensures
        r1 == r2,
        r1.to_multiset() == r2.to_multiset(),
{
}

proof fn lemma_pair_expand(dict: Seq<Seq<u8>>, anchor: Seq<u8>, tag: Option<Position>, found: Seq<u8>)
    ensures
        forall|i: int|
            0 <= i < pair_combos(dict, anchor, tag, found).len() ==> (#[trigger] pair_combos(
                dict,
                anchor,
                tag,
                found,
            )[i]).expand == expand_tag(anchor, tag),
{
    let e = expand_tag(anchor, tag);
    let l = combos_of(dict, stitches_spec(anchor, found, Position::Left), e);
    let r = combos_of(dict, stitches_spec(anchor, found, Position::Right), e);
    assert forall|i: int| 0 <= i < (l + r).len() implies (#[trigger] (l + r)[i]).expand == e by {
        if i < l.len() {
            assert(l[i].expand == e);
        } else {
            assert(r[i - l.len()].expand == e);
        }
    }
}

/// Every combo of an anchor carries the anchor's expansion record.
proof fn lemma_anchor_expand(dict: Seq<Seq<u8>>, anchor: Seq<u8>, tag: Option<Position>, n: int)
    ensures
        forall|i: int|
            0 <= i < anchor_combos_upto(dict, anchor, tag, n).len() ==> (#[trigger] anchor_combos_upto(
                dict,
                anchor,
                tag,
                n,
            )[i]).expand == expand_tag(anchor, tag),
    decreases n,
{
    if n > 0 {
        lemma_anchor_expand(dict, anchor, tag, n - 1);
        lemma_pair_expand(dict, anchor, tag, dict[n - 1]);
        let a = anchor_combos_upto(dict, anchor, tag, n - 1);
        let b = pair_combos(dict, anchor, tag, dict[n - 1]);
        assert forall|i: int| 0 <= i < (a + b).len() implies (#[trigger] (a + b)[i]).expand
            == expand_tag(anchor, tag) by {
            if i < a.len() {
                assert(a[i].expand == expand_tag(anchor, tag));
            } else {
                assert(b[i - a.len()].expand == expand_tag(anchor, tag));
            }
        }
    }
}

/// The combos of the first `n` anchors depend on those anchors alone.
proof fn lemma_all_prefix(
    dict: Seq<Seq<u8>>,
    a: Seq<(Seq<u8>, Option<Position>)>,
    b: Seq<(Seq<u8>, Option<Position>)>,
    n: int,
)
    requires
        0 <= n <= a.len(),
        n <= b.len(),
        forall|i: int| 0 <= i < n ==> a[i] == b[i],
    ensures
        all_combos_upto(dict, a, n) == all_combos_upto(dict, b, n),
    decreases n,
{
    if n > 0 {
        lemma_all_prefix(dict, a, b, n - 1);
        assert(a[n - 1] == b[n - 1]);
    }
}

/// A predicate on combos that reads only their expansion record.
spec fn combo_pred(ep: spec_fn(Option<(Seq<u8>, Position)>) -> bool) -> spec_fn(ComboView) -> bool {
    |c: ComboView| ep(c.expand)
}

/// The same predicate on the anchors that carry the record.
spec fn anchor_pred(ep: spec_fn(Option<(Seq<u8>, Position)>) -> bool) -> spec_fn(
    (Seq<u8>, Option<Position>),
) -> bool {
    |e: (Seq<u8>, Option<Position>)| ep(expand_tag(e.0, e.1))
}

/// Dropping anchors by their expansion record drops exactly their combos.
proof fn lemma_anchor_filter(
    dict: Seq<Seq<u8>>,
    a: Seq<(Seq<u8>, Option<Position>)>,
    ep: spec_fn(Option<(Seq<u8>, Position)>) -> bool,
)
    ensures
        combos_of_anchors(dict, a.filter(anchor_pred(ep))) == combos_of_anchors(dict, a).filter(
            combo_pred(ep),
        ),
    decreases a.len(),
{
    reveal(Seq::filter);
    let ap = anchor_pred(ep);
    let cp = combo_pred(ep);
    if a.len() > 0 {
        let x = a.drop_last();
        let e = a.last();
        lemma_anchor_filter(dict, x, ep);
        lemma_all_prefix(dict, a, x, x.len() as int);
        let ae = anchor_combos_upto(dict, e.0, e.1, dict.len() as int);
        assert(combos_of_anchors(dict, a) == combos_of_anchors(dict, x) + ae);
        Seq::filter_distributes_over_add(combos_of_anchors(dict, x), ae, cp);
        lemma_anchor_expand(dict, e.0, e.1, dict.len() as int);
        let f = x.filter(ap);
        if ap(e) {
            assert forall|i: int| 0 <= i < ae.len() implies #[trigger] cp(ae[i]) by {
                assert(ae[i].expand == expand_tag(e.0, e.1));
            }
            lemma_filter_all(ae, cp);
            assert(a.filter(ap) == f.push(e));
            lemma_all_prefix(dict, f.push(e), f, f.len() as int);
            assert(combos_of_anchors(dict, f.push(e)) == combos_of_anchors(dict, f) + ae);
        } else {
            assert forall|i: int| 0 <= i < ae.len() implies !cp(#[trigger] ae[i]) by {
                assert(ae[i].expand == expand_tag(e.0, e.1));
            }
            lemma_filter_none(ae, cp);
            assert(combos_of_anchors(dict, x).filter(cp) + Seq::<ComboView>::empty() =~= combos_of_anchors(dict, x).filter(cp));
        }
    } else {
        assert(combos_of_anchors(dict, a) =~= Seq::<ComboView>::empty());
    }
}

/// Whether a dictionary word both starts and ends with `given` and is longer.
pub open spec fn expands_both_ways(given: Seq<u8>, w: Seq<u8>) -> bool {
    given.len() < w.len() && w.subrange(0, given.len() as int) == given && w.subrange(
        w.len() - given.len(),
        w.len() as int,
    ) == given
}

/// Whether an expansion record passes an expansion-alignment filter.
pub open spec fn expansion_ok(exp_pos: Position, e: Option<(Seq<u8>, Position)>) -> bool {
    match e {
        Some(x) => x.1 == exp_pos,
        None => true,
    }
}

spec fn exp_filter(p: Position) -> spec_fn(Option<(Seq<u8>, Position)>) -> bool {
    |e: Option<(Seq<u8>, Position)>| expansion_ok(p, e)
}

proof fn lemma_filter_single<A>(x: A, p: spec_fn(A) -> bool)
    ensures
        seq![x].filter(p) == if p(x) {
            seq![x]
        } else {
            Seq::<A>::empty()
        },
{
    reveal(Seq::filter);
    Seq::<A>::empty().lemma_filter_push(x, p);
    assert(Seq::<A>::empty().push(x) =~= seq![x]);
    assert(Seq::<A>::empty().filter(p) =~= Seq::<A>::empty());
}

proof fn lemma_expansions_filter(given: Seq<u8>, dict: Seq<Seq<u8>>, p: Position, n: int)
    requires
        0 <= n <= dict.len(),
        p == Position::Left || forall|i: int|
            0 <= i < dict.len() ==> !expands_both_ways(given, #[trigger] dict[i]),
    ensures
        tag_expansions(expansions_upto(given, dict, Some(p), n)) == tag_expansions(
            expansions_upto(given, dict, None, n),
        ).filter(anchor_pred(exp_filter(p))),
    decreases n,
{
    let ap = anchor_pred(exp_filter(p));
    if n > 0 {
        lemma_expansions_filter(given, dict, p, n - 1);
        let w = dict[n - 1];
        let a = expansions_upto(given, dict, Some(p), n - 1);
        let b = match expansion_of(given, w, Some(p)) {
            Some(x) => seq![(w, x)],
            None => Seq::<(Seq<u8>, Position)>::empty(),
        };
        let a2 = expansions_upto(given, dict, None, n - 1);
        let b2 = match expansion_of(given, w, None) {
            Some(x) => seq![(w, x)],
            None => Seq::<(Seq<u8>, Position)>::empty(),
        };
        assert(tag_expansions(a + b) =~= tag_expansions(a) + tag_expansions(b));
        assert(tag_expansions(a2 + b2) =~= tag_expansions(a2) + tag_expansions(b2));
        Seq::filter_distributes_over_add(tag_expansions(a2), tag_expansions(b2), ap);
        assert(!expands_both_ways(given, dict[n - 1]) || p == Position::Left);
        match expansion_of(given, w, None) {
            Some(x) => {
                assert(tag_expansions(b2) =~= seq![(w, Some(x))]);
                lemma_filter_single((w, Some(x)), ap);
                if x == p {
                    assert(tag_expansions(b) =~= seq![(w, Some(x))]);
                } else {
                    assert(tag_expansions(b) =~= Seq::<(Seq<u8>, Option<Position>)>::empty());
                }
            },
            None => {
                assert(tag_expansions(b2) =~= Seq::<(Seq<u8>, Option<Position>)>::empty());
                reveal(Seq::filter);
                assert(tag_expansions(b) =~= Seq::<(Seq<u8>, Option<Position>)>::empty());
            },
        }
    } else {
        reveal(Seq::filter);
        assert(tag_expansions(expansions_upto(given, dict, None, n)) =~= Seq::<
            (Seq<u8>, Option<Position>),
        >::empty());
        assert(tag_expansions(expansions_upto(given, dict, Some(p), n)) =~= Seq::<
            (Seq<u8>, Option<Position>),
        >::empty());
    }
}

/// Requiring an expansion alignment keeps, of the combos found without that
/// requirement, those of the given word and those of expansions at that
/// alignment, in the same order. For `Right` this needs that no dictionary
/// word both starts and ends with the given word: without a requirement such
/// a word counts as a `Left` expansion only.
pub proof fn lemma_expansion_position_filters(q: Query, p: Position)
    requires
        !q.disable_exp,
        q.exp_pos is None,
        p == Position::Left || forall|i: int|
            0 <= i < q.dict.len() ==> !expands_both_ways(q.given, #[trigger] q.dict[i]),
    ensures
        find_all_spec(Query { exp_pos: Some(p), ..q }) == find_all_spec(q).filter(
            |c: ComboView| expansion_ok(p, c.expand),
        ),
{
    let qp = Query { exp_pos: Some(p), ..q };
    let ep = exp_filter(p);
    let ap = anchor_pred(ep);
    let cp = combo_pred(ep);
    let head = seq![(q.given, None::<Position>)];
    let t = tag_expansions(expansions_upto(q.given, q.dict, None, q.dict.len() as int));
    lemma_expansions_filter(q.given, q.dict, p, q.dict.len() as int);
    Seq::filter_distributes_over_add(head, t, ap);
    lemma_filter_single((q.given, None::<Position>), ap);
    assert(crate::matcher::anchors_spec(qp) == crate::matcher::anchors_spec(q).filter(ap));
    lemma_anchor_filter(q.dict, crate::matcher::anchors_spec(q), ep);
    let s = all_combos(q);
    assert(all_combos(qp) == s.filter(cp));
    assert(acceptor(qp) =~= acceptor(q));
    let both = |c: ComboView| cp(c) && acceptor(q)(c);
    lemma_filter_and(s, cp, acceptor(q), both);
    lemma_filter_and(s, acceptor(q), cp, both);
    assert(cp =~= (|c: ComboView| expansion_ok(p, c.expand)));
}

/// Disabling expansion keeps, of the combos found with expansion, exactly
/// those of the given word itself, in the same order.
pub proof fn lemma_disabling_expansion_filters(q: Query)
    requires
        !q.disable_exp,
    ensures
        find_all_spec(Query { disable_exp: true, ..q }) == find_all_spec(q).filter(
            |c: ComboView| c.expand is None,
        ),
{
    let qd = Query { disable_exp: true, ..q };
    let ep = |e: Option<(Seq<u8>, Position)>| e is None;
    let ap = anchor_pred(ep);
    let cp = combo_pred(ep);
    let head = seq![(q.given, None::<Position>)];
    let t = tag_expansions(crate::matcher::expansions_spec(q));
    Seq::filter_distributes_over_add(head, t, ap);
    lemma_filter_single((q.given, None::<Position>), ap);
    assert forall|i: int| 0 <= i < t.len() implies !ap(#[trigger] t[i]) by {}
    lemma_filter_none(t, ap);
    assert(crate::matcher::anchors_spec(qd) =~= head);
    assert(head + Seq::<(Seq<u8>, Option<Position>)>::empty() =~= head);
    assert(crate::matcher::anchors_spec(qd) == crate::matcher::anchors_spec(q).filter(ap));
    lemma_anchor_filter(q.dict, crate::matcher::anchors_spec(q), ep);
    let s = all_combos(q);
    assert(all_combos(qd) == s.filter(cp));
    assert(acceptor(qd) =~= acceptor(q));
    let both = |c: ComboView| cp(c) && acceptor(q)(c);
    lemma_filter_and(s, cp, acceptor(q), both);
    lemma_filter_and(s, acceptor(q), cp, both);
    assert(cp =~= (|c: ComboView| c.expand is None));
}

} // verus!
