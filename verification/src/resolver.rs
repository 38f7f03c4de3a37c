//! Bracket resolution: a single left-to-right pass that pairs every block
//! and expression delimiter, independently per kind, and rewrites each
//! opening token's payload to the index of its matching closing token.

use vstd::prelude::*;
use crate::errors::CompileError;
use crate::token::{Token, TokenModel, tview};

verus! {

/// Rewrites the token at `idx`, leaving the sequence unchanged when the
/// index is out of range; the length is preserved either way.
pub open spec fn upd(ts: Seq<TokenModel>, idx: int, t: TokenModel) -> Seq<TokenModel> {
    if 0 <= idx < ts.len() {
        ts.update(idx, t)
    } else {
        ts
    }
}

/// One resolution step at a time, carrying the two stacks of pending opening
/// indices. On an opening token its index is pushed; on a closing token the
/// most recent pending open of the same kind is popped and rewritten; a
/// closing token with an empty stack, or a stack left pending at the end,
/// fails.
pub open spec fn spec_resolve_from(
    ts: Seq<TokenModel>,
    i: int,
    bs: Seq<usize>,
    es: Seq<usize>,
) -> Result<Seq<TokenModel>, CompileError>
    decreases ts.len() - i,
{
    if i < 0 || i >= ts.len() {
        if bs.len() > 0 {
            Err(CompileError::UnclosedBlock)
        } else if es.len() > 0 {
            Err(CompileError::UnclosedExpr)
        } else {
            Ok(ts)
        }
    } else {
        match ts[i] {
            TokenModel::BlockStart(_) => spec_resolve_from(ts, i + 1, bs.push(i as usize), es),
            TokenModel::BlockEnd => if bs.len() == 0 {
                Err(CompileError::UnpairedBlockEnd)
            } else {
                spec_resolve_from(
                    upd(ts, bs.last() as int, TokenModel::BlockStart(i as usize)),
                    i + 1,
                    bs.drop_last(),
                    es,
                )
            },
            TokenModel::ExprStart(_) => spec_resolve_from(ts, i + 1, bs, es.push(i as usize)),
            TokenModel::ExprEnd => if es.len() == 0 {
                Err(CompileError::UnpairedExprEnd)
            } else {
                spec_resolve_from(
                    upd(ts, es.last() as int, TokenModel::ExprStart(i as usize)),
                    i + 1,
                    bs,
                    es.drop_last(),
                )
            },
            _ => spec_resolve_from(ts, i + 1, bs, es),
        }
    }
}

/// Bracket resolution of a whole token sequence.
pub open spec fn spec_resolve(ts: Seq<TokenModel>) -> Result<Seq<TokenModel>, CompileError> {
    spec_resolve_from(ts, 0, Seq::empty(), Seq::empty())
}

/// Resolution never changes the number of tokens.
pub proof fn lemma_resolve_len(ts: Seq<TokenModel>, i: int, bs: Seq<usize>, es: Seq<usize>)
    requires
        spec_resolve_from(ts, i, bs, es) is Ok,
    ensures
        spec_resolve_from(ts, i, bs, es)->Ok_0.len() == ts.len(),
    decreases ts.len() - i,
{
    if i < 0 || i >= ts.len() {
    } else {
        match ts[i] {
            TokenModel::BlockStart(_) => {
                lemma_resolve_len(ts, i + 1, bs.push(i as usize), es);
            },
            TokenModel::BlockEnd => {
                lemma_resolve_len(
                    upd(ts, bs.last() as int, TokenModel::BlockStart(i as usize)),
                    i + 1,
                    bs.drop_last(),
                    es,
                );
            },
            TokenModel::ExprStart(_) => {
                lemma_resolve_len(ts, i + 1, bs, es.push(i as usize));
            },
            TokenModel::ExprEnd => {
                lemma_resolve_len(
                    upd(ts, es.last() as int, TokenModel::ExprStart(i as usize)),
                    i + 1,
                    bs,
                    es.drop_last(),
                );
            },
            _ => {
                lemma_resolve_len(ts, i + 1, bs, es);
            },
        }
    }
}

/// Whether a token opens a bracket of the given kind (`true` for blocks,
/// `false` for expressions).
pub open spec fn is_open(t: TokenModel, block: bool) -> bool {
    if block {
        t is BlockStart
    } else {
        t is ExprStart
    }
}

/// Whether a token closes a bracket of the given kind.
pub open spec fn is_close(t: TokenModel, block: bool) -> bool {
    if block {
        t is BlockEnd
    } else {
        t is ExprEnd
    }
}

/// The nesting depth of the given kind before position `i`: opening tokens
/// in `ts[0..i]` minus closing ones.
pub open spec fn depth(ts: Seq<TokenModel>, block: bool, i: int) -> int
    decreases i,
{
    if i <= 0 || i > ts.len() {
        0
    } else {
        depth(ts, block, i - 1) + (if is_open(ts[i - 1], block) {
            1int
        } else if is_close(ts[i - 1], block) {
            -1int
        } else {
            0int
        })
    }
}

/// Balanced for one kind: the depth never drops below zero and ends at zero.
pub open spec fn balanced_kind(ts: Seq<TokenModel>, block: bool) -> bool {
    &&& forall|i: int| 0 <= i <= ts.len() ==> depth(ts, block, i) >= 0
    &&& depth(ts, block, ts.len() as int) == 0
}

/// A well-formed program: blocks and expressions each balance on their own.
pub open spec fn balanced(ts: Seq<TokenModel>) -> bool {
    balanced_kind(ts, true) && balanced_kind(ts, false)
}

/// `j` is the matching close of the open at `i`: the close of the same kind
/// whose depth returns to the open's own, with no earlier return in between.
pub open spec fn is_match(ts: Seq<TokenModel>, block: bool, i: int, j: int) -> bool {
    &&& 0 <= i < j < ts.len()
    &&& is_open(ts[i], block)
    &&& is_close(ts[j], block)
    &&& depth(ts, block, j + 1) == depth(ts, block, i)
    &&& forall|m: int| i < m <= j ==> depth(ts, block, m) > depth(ts, block, i)
}

/// The first position at or after `j` holding a close of the kind that
/// brings the depth back to `d`, or the end of the sequence.
pub open spec fn match_from(ts: Seq<TokenModel>, block: bool, j: int, d: int) -> int
    decreases ts.len() - j,
{
    if j < 0 || j >= ts.len() {
        ts.len() as int
    } else if is_close(ts[j], block) && depth(ts, block, j + 1) == d {
        j
    } else {
        match_from(ts, block, j + 1, d)
    }
}

/// The index of the matching close of the open at `i`.
pub open spec fn match_of(ts: Seq<TokenModel>, block: bool, i: int) -> int {
    match_from(ts, block, i + 1, depth(ts, block, i))
}

/// While the depth stays above `d` but must come back down to it, the first
/// returning close exists and `match_from` finds it.
proof fn lemma_match_from_finds(ts: Seq<TokenModel>, block: bool, j0: int, d: int)
    requires
        0 <= j0 <= ts.len(),
        depth(ts, block, j0) > d,
        depth(ts, block, ts.len() as int) <= d,
    ensures
        ({
            let j = match_from(ts, block, j0, d);
            &&& j0 <= j < ts.len()
            &&& is_close(ts[j], block)
            &&& depth(ts, block, j + 1) == d
            &&& forall|m: int| j0 <= m <= j ==> depth(ts, block, m) > d
        }),
    decreases ts.len() - j0,
{
    assert(j0 < ts.len());
    if is_close(ts[j0], block) && depth(ts, block, j0 + 1) == d {
    } else {
        assert(depth(ts, block, j0 + 1) > d);
        lemma_match_from_finds(ts, block, j0 + 1, d);
    }
}

/// Every open of a balanced sequence has its matching close.
pub proof fn lemma_match_of_valid(ts: Seq<TokenModel>, block: bool, i: int)
    requires
        balanced_kind(ts, block),
        0 <= i < ts.len(),
        is_open(ts[i], block),
    ensures
        is_match(ts, block, i, match_of(ts, block, i)),
{
    assert(depth(ts, block, i + 1) == depth(ts, block, i) + 1);
    lemma_match_from_finds(ts, block, i + 1, depth(ts, block, i));
}

/// An open has at most one matching close.
pub proof fn lemma_match_unique(ts: Seq<TokenModel>, block: bool, i: int, j1: int, j2: int)
    requires
        is_match(ts, block, i, j1),
        is_match(ts, block, i, j2),
    ensures
        j1 == j2,
{
    if j1 < j2 {
        assert(depth(ts, block, j1 + 1) > depth(ts, block, i));
    }
    if j2 < j1 {
        assert(depth(ts, block, j2 + 1) > depth(ts, block, i));
    }
}

proof fn lemma_depth_upd(ts: Seq<TokenModel>, idx: int, t: TokenModel, block: bool, i: int)
    requires
        0 <= idx < ts.len(),
        forall|b: bool|
            is_open(t, b) == is_open(ts[idx], b) && is_close(t, b) == is_close(ts[idx], b),
    ensures
        depth(ts.update(idx, t), block, i) == depth(ts, block, i),
    decreases i,
{
    if 0 < i <= ts.len() {
        lemma_depth_upd(ts, idx, t, block, i - 1);
    }
}

proof fn lemma_match_from_upd(
    ts: Seq<TokenModel>,
    idx: int,
    t: TokenModel,
    block: bool,
    j: int,
    d: int,
)
    requires
        0 <= idx < ts.len(),
        forall|b: bool|
            is_open(t, b) == is_open(ts[idx], b) && is_close(t, b) == is_close(ts[idx], b),
    ensures
        match_from(ts.update(idx, t), block, j, d) == match_from(ts, block, j, d),
    decreases ts.len() - j,
{
    if 0 <= j < ts.len() {
        lemma_depth_upd(ts, idx, t, block, j + 1);
        lemma_match_from_upd(ts, idx, t, block, j + 1, d);
    }
}

/// Rewriting one opening token's payload preserves every classification,
/// every depth and every match.
proof fn lemma_upd_preserves(ts: Seq<TokenModel>, idx: int, t: TokenModel)
    requires
        0 <= idx < ts.len(),
        forall|b: bool|
            is_open(t, b) == is_open(ts[idx], b) && is_close(t, b) == is_close(ts[idx], b),
    ensures
        forall|b: bool, j: int|
            0 <= j < ts.len() ==> #[trigger] is_open(ts.update(idx, t)[j], b) == is_open(ts[j], b)
                && #[trigger] is_close(ts.update(idx, t)[j], b) == is_close(ts[j], b),
        forall|b: bool, i: int| #[trigger] depth(ts.update(idx, t), b, i) == depth(ts, b, i),
        forall|b: bool, j: int, d: int| #[trigger]
            match_from(ts.update(idx, t), b, j, d) == match_from(ts, b, j, d),
        forall|b: bool, j: int| #[trigger]
            match_of(ts.update(idx, t), b, j) == match_of(ts, b, j),
{
    assert forall|b: bool, i: int| #[trigger]
        depth(ts.update(idx, t), b, i) == depth(ts, b, i) by {
        lemma_depth_upd(ts, idx, t, b, i);
    }
    assert forall|b: bool, j: int, d: int| #[trigger]
        match_from(ts.update(idx, t), b, j, d) == match_from(ts, b, j, d) by {
        lemma_match_from_upd(ts, idx, t, b, j, d);
    }
}

/// Whether the stack holds position `j`.
pub open spec fn stack_holds(st: Seq<usize>, j: int) -> bool {
    exists|k: int| 0 <= k < st.len() && (#[trigger] st[k]) as int == j
}

/// The resolver's invariant for one kind: the stack holds exactly the
/// pending opens, in order, one per depth level, and the depth has not
/// returned to any of their levels since.
pub open spec fn stack_ok(ts: Seq<TokenModel>, block: bool, i: int, st: Seq<usize>) -> bool {
    &&& forall|k: int| #![trigger st[k]] 0 <= k < st.len() ==> 0 <= (st[k] as int) < i
    &&& forall|k: int| #![trigger st[k]] 0 <= k < st.len() ==> is_open(ts[st[k] as int], block)
    &&& forall|k: int| #![trigger st[k]] 0 <= k < st.len() ==> depth(ts, block, st[k] as int) == k
    &&& forall|k: int, m: int|
        #![trigger st[k], depth(ts, block, m)]
        0 <= k < st.len() && (st[k] as int) < m <= i ==> depth(ts, block, m) >= k + 1
    &&& depth(ts, block, i) == st.len()
}

/// The induction behind bracket resolution: from any position whose pending
/// stacks describe the prefix, resolution of a balanced sequence succeeds
/// and every open not yet resolved gets its matching close.
proof fn lemma_resolve_from_ok(ts: Seq<TokenModel>, i: int, bs: Seq<usize>, es: Seq<usize>)
    requires
        0 <= i <= ts.len(),
        ts.len() <= usize::MAX,
        balanced(ts),
        stack_ok(ts, true, i, bs),
        stack_ok(ts, false, i, es),
    ensures
        spec_resolve_from(ts, i, bs, es) is Ok,
        ({
            let rs = spec_resolve_from(ts, i, bs, es)->Ok_0;
            &&& rs.len() == ts.len()
            &&& forall|j: int|
                0 <= j < ts.len() && !is_open(ts[j], true) && !is_open(ts[j], false)
                    ==> #[trigger] rs[j] == ts[j]
            &&& forall|j: int|
                i <= j < ts.len() && is_open(ts[j], true) ==> #[trigger] rs[j]
                    == TokenModel::BlockStart(match_of(ts, true, j) as usize)
            &&& forall|j: int|
                i <= j < ts.len() && is_open(ts[j], false) ==> #[trigger] rs[j]
                    == TokenModel::ExprStart(match_of(ts, false, j) as usize)
            &&& forall|k: int|
                #![trigger bs[k]]
                0 <= k < bs.len() ==> rs[bs[k] as int] == TokenModel::BlockStart(
                    match_of(ts, true, bs[k] as int) as usize,
                )
            &&& forall|k: int|
                #![trigger es[k]]
                0 <= k < es.len() ==> rs[es[k] as int] == TokenModel::ExprStart(
                    match_of(ts, false, es[k] as int) as usize,
                )
            &&& forall|j: int|
                0 <= j < i && is_open(ts[j], true) && !stack_holds(bs, j) ==> #[trigger] rs[j]
                    == ts[j]
            &&& forall|j: int|
                0 <= j < i && is_open(ts[j], false) && !stack_holds(es, j) ==> #[trigger] rs[j]
                    == ts[j]
        }),
    decreases ts.len() - i,
{
    if i >= ts.len() {
        assert(bs.len() == 0);
        assert(es.len() == 0);
    } else {
        match ts[i] {
            TokenModel::BlockStart(_) => {
                let bs2 = bs.push(i as usize);
                assert(depth(ts, true, i + 1) == depth(ts, true, i) + 1);
                assert(depth(ts, false, i + 1) == depth(ts, false, i));
                assert(stack_ok(ts, true, i + 1, bs2)) by {
                    assert(bs2[bs.len() as int] == i as usize);
                    assert forall|k: int| #![trigger bs2[k]]
                        0 <= k < bs2.len() implies 0 <= (bs2[k] as int) < i + 1 && is_open(
                        ts[bs2[k] as int],
                        true,
                    ) && depth(ts, true, bs2[k] as int) == k by {
                        if k < bs.len() {
                            assert(bs2[k] == bs[k]);
                        } else {
                            assert(bs2[k] == i as usize);
                        }
                    }
                    assert forall|k: int, m: int|
                        #![trigger bs2[k], depth(ts, true, m)]
                        0 <= k < bs2.len() && (bs2[k] as int) < m <= i + 1 implies depth(
                        ts,
                        true,
                        m,
                    ) >= k + 1 by {
                        if k < bs.len() {
                            assert(bs2[k] == bs[k]);
                            if m <= i {
                                assert(depth(ts, true, m) >= k + 1);
                            } else {
                                assert(m == i + 1);
                            }
                        } else {
                            assert(bs2[k] == i as usize);
                            assert(m == i + 1);
                        }
                    }
                }
                assert(stack_ok(ts, false, i + 1, es)) by {
                    assert forall|k: int, m: int|
                        #![trigger es[k], depth(ts, false, m)]
                        0 <= k < es.len() && (es[k] as int) < m <= i + 1 implies depth(
                        ts,
                        false,
                        m,
                    ) >= k + 1 by {
                        if m <= i {
                            assert(depth(ts, false, m) >= k + 1);
                        } else {
                            assert(m == i + 1);
                        }
                    }
                }
                lemma_resolve_from_ok(ts, i + 1, bs2, es);
                let rs = spec_resolve_from(ts, i + 1, bs2, es)->Ok_0;
                assert(bs2[bs.len() as int] == i as usize);
                assert(rs[bs2[bs.len() as int] as int] == TokenModel::BlockStart(
                    match_of(ts, true, i) as usize,
                ));
                assert forall|k: int| #![trigger bs[k]]
                    0 <= k < bs.len() implies rs[bs[k] as int] == TokenModel::BlockStart(
                    match_of(ts, true, bs[k] as int) as usize,
                ) by {
                    assert(bs2[k] == bs[k]);
                }
                assert forall|j: int|
                    0 <= j < i && is_open(ts[j], true) && !stack_holds(bs, j) implies #[trigger] rs[j]
                    == ts[j] by {
                    assert(!stack_holds(bs2, j)) by {
                        if stack_holds(bs2, j) {
                            let k = choose|k: int|
                                0 <= k < bs2.len() && (bs2[k] as int) == j;
                            if k < bs.len() {
                                assert(bs2[k] == bs[k]);
                                assert(stack_holds(bs, j));
                            } else {
                                assert(bs2[k] == i as usize);
                            }
                        }
                    }
                }
            },
            TokenModel::ExprStart(_) => {
                let es2 = es.push(i as usize);
                assert(depth(ts, false, i + 1) == depth(ts, false, i) + 1);
                assert(depth(ts, true, i + 1) == depth(ts, true, i));
                assert(stack_ok(ts, false, i + 1, es2)) by {
                    assert(es2[es.len() as int] == i as usize);
                    assert forall|k: int| #![trigger es2[k]]
                        0 <= k < es2.len() implies 0 <= (es2[k] as int) < i + 1 && is_open(
                        ts[es2[k] as int],
                        false,
                    ) && depth(ts, false, es2[k] as int) == k by {
                        if k < es.len() {
                            assert(es2[k] == es[k]);
                        } else {
                            assert(es2[k] == i as usize);
                        }
                    }
                    assert forall|k: int, m: int|
                        #![trigger es2[k], depth(ts, false, m)]
                        0 <= k < es2.len() && (es2[k] as int) < m <= i + 1 implies depth(
                        ts,
                        false,
                        m,
                    ) >= k + 1 by {
                        if k < es.len() {
                            assert(es2[k] == es[k]);
                            if m <= i {
                                assert(depth(ts, false, m) >= k + 1);
                            } else {
                                assert(m == i + 1);
                            }
                        } else {
                            assert(es2[k] == i as usize);
                            assert(m == i + 1);
                        }
                    }
                }
                assert(stack_ok(ts, true, i + 1, bs)) by {
                    assert forall|k: int, m: int|
                        #![trigger bs[k], depth(ts, true, m)]
                        0 <= k < bs.len() && (bs[k] as int) < m <= i + 1 implies depth(
                        ts,
                        true,
                        m,
                    ) >= k + 1 by {
                        if m <= i {
                            assert(depth(ts, true, m) >= k + 1);
                        } else {
                            assert(m == i + 1);
                        }
                    }
                }
                lemma_resolve_from_ok(ts, i + 1, bs, es2);
                let rs = spec_resolve_from(ts, i + 1, bs, es2)->Ok_0;
                assert(es2[es.len() as int] == i as usize);
                assert(rs[es2[es.len() as int] as int] == TokenModel::ExprStart(
                    match_of(ts, false, i) as usize,
                ));
                assert forall|k: int| #![trigger es[k]]
                    0 <= k < es.len() implies rs[es[k] as int] == TokenModel::ExprStart(
                    match_of(ts, false, es[k] as int) as usize,
                ) by {
                    assert(es2[k] == es[k]);
                }
                assert forall|j: int|
                    0 <= j < i && is_open(ts[j], false) && !stack_holds(es, j) implies #[trigger] rs[j]
                    == ts[j] by {
                    assert(!stack_holds(es2, j)) by {
                        if stack_holds(es2, j) {
                            let k = choose|k: int|
                                0 <= k < es2.len() && (es2[k] as int) == j;
                            if k < es.len() {
                                assert(es2[k] == es[k]);
                                assert(stack_holds(es, j));
                            } else {
                                assert(es2[k] == i as usize);
                            }
                        }
                    }
                }
            },
            TokenModel::BlockEnd => {
                assert(depth(ts, true, i + 1) == depth(ts, true, i) - 1);
                assert(depth(ts, false, i + 1) == depth(ts, false, i));
                if bs.len() == 0 {
                    assert(depth(ts, true, i + 1) >= 0);
                    assert(false);
                }
                let p = bs.last() as int;
                let k0 = bs.len() - 1;
                assert(bs[k0] == bs.last());
                assert(depth(ts, true, p) == k0);
                assert(is_match(ts, true, p, i)) by {
                    assert forall|m: int| p < m <= i implies depth(ts, true, m) > depth(
                        ts,
                        true,
                        p,
                    ) by {
                        assert(depth(ts, true, m) >= k0 + 1);
                    }
                }
                lemma_match_of_valid(ts, true, p);
                lemma_match_unique(ts, true, p, i, match_of(ts, true, p));
                let t2 = TokenModel::BlockStart(i as usize);
                let ts2 = ts.update(p, t2);
                lemma_upd_preserves(ts, p, t2);
                assert(upd(ts, bs.last() as int, t2) == ts2);
                assert(balanced(ts2));
                assert(stack_ok(ts2, true, i + 1, bs.drop_last()));
                assert(stack_ok(ts2, false, i + 1, es));
                lemma_resolve_from_ok(ts2, i + 1, bs.drop_last(), es);
                let rs = spec_resolve_from(ts2, i + 1, bs.drop_last(), es)->Ok_0;
                assert(spec_resolve_from(ts, i, bs, es) == spec_resolve_from(
                    ts2,
                    i + 1,
                    bs.drop_last(),
                    es,
                ));
                // the popped open keeps its fresh payload: it is on no stack
                assert(!stack_holds(bs.drop_last(), p)) by {
                    if stack_holds(bs.drop_last(), p) {
                        let k = choose|k: int|
                            0 <= k < bs.drop_last().len() && (bs.drop_last()[k] as int) == p;
                        assert(depth(ts, true, bs[k] as int) == k);
                    }
                }
                assert(rs[p] == ts2[p]);
                assert(rs[p] == TokenModel::BlockStart(match_of(ts, true, p) as usize));
                assert forall|k: int| #![trigger bs[k]]
                    0 <= k < bs.len() implies rs[bs[k] as int]
                    == TokenModel::BlockStart(match_of(ts, true, bs[k] as int) as usize) by {
                    if k < k0 {
                        assert(bs.drop_last()[k] == bs[k]);
                        assert(match_of(ts2, true, bs[k] as int) == match_of(ts, true, bs[k] as int));
                    }
                }
                assert forall|j: int|
                    i <= j < ts.len() && is_open(ts[j], true) implies #[trigger] rs[j]
                    == TokenModel::BlockStart(match_of(ts, true, j) as usize) by {
                    assert(is_open(ts2[j], true));
                    assert(ts2[j] == ts[j]);
                    assert(match_of(ts2, true, j) == match_of(ts, true, j));
                }
                assert forall|j: int|
                    0 <= j < i && is_open(ts[j], true) && !stack_holds(bs, j) implies #[trigger] rs[j]
                    == ts[j] by {
                    assert(j != p);
                    assert(!stack_holds(bs.drop_last(), j)) by {
                        if stack_holds(bs.drop_last(), j) {
                            let k = choose|k: int|
                                0 <= k < bs.drop_last().len() && (bs.drop_last()[k] as int) == j;
                            assert(bs[k] as int == j);
                        }
                    }
                    assert(is_open(ts2[j], true) && ts2[j] == ts[j]);
                }
                assert forall|j: int|
                    0 <= j < ts.len() && !is_open(ts[j], true) && !is_open(ts[j], false)
                        implies #[trigger] rs[j] == ts[j] by {
                    assert(ts2[j] == ts[j]);
                }
                assert forall|j: int|
                    i <= j < ts.len() && is_open(ts[j], false) implies #[trigger] rs[j]
                    == TokenModel::ExprStart(match_of(ts, false, j) as usize) by {
                    assert(is_open(ts2[j], false) && ts2[j] == ts[j]);
                    assert(match_of(ts2, false, j) == match_of(ts, false, j));
                }
                assert forall|k: int| #![trigger es[k]]
                    0 <= k < es.len() implies rs[es[k] as int] == TokenModel::ExprStart(
                        match_of(ts, false, es[k] as int) as usize,
                    ) by {
                    assert(match_of(ts2, false, es[k] as int) == match_of(ts, false, es[k] as int));
                }
                assert forall|j: int|
                    0 <= j < i && is_open(ts[j], false) && !stack_holds(es, j) implies #[trigger] rs[j]
                    == ts[j] by {
                    assert(is_open(ts2[j], false) && ts2[j] == ts[j]);
                }
            },
            TokenModel::ExprEnd => {
                assert(depth(ts, false, i + 1) == depth(ts, false, i) - 1);
                assert(depth(ts, true, i + 1) == depth(ts, true, i));
                if es.len() == 0 {
                    assert(depth(ts, false, i + 1) >= 0);
                    assert(false);
                }
                let p = es.last() as int;
                let k0 = es.len() - 1;
                assert(es[k0] == es.last());
                assert(depth(ts, false, p) == k0);
                assert(is_match(ts, false, p, i)) by {
                    assert forall|m: int| p < m <= i implies depth(ts, false, m) > depth(
                        ts,
                        false,
                        p,
                    ) by {
                        assert(depth(ts, false, m) >= k0 + 1);
                    }
                }
                lemma_match_of_valid(ts, false, p);
                lemma_match_unique(ts, false, p, i, match_of(ts, false, p));
                let t2 = TokenModel::ExprStart(i as usize);
                let ts2 = ts.update(p, t2);
                lemma_upd_preserves(ts, p, t2);
                assert(upd(ts, es.last() as int, t2) == ts2);
                assert(balanced(ts2));
                assert(stack_ok(ts2, false, i + 1, es.drop_last()));
                assert(stack_ok(ts2, true, i + 1, bs));
                lemma_resolve_from_ok(ts2, i + 1, bs, es.drop_last());
                let rs = spec_resolve_from(ts2, i + 1, bs, es.drop_last())->Ok_0;
                assert(spec_resolve_from(ts, i, bs, es) == spec_resolve_from(
                    ts2,
                    i + 1,
                    bs,
                    es.drop_last(),
                ));
                assert(!stack_holds(es.drop_last(), p)) by {
                    if stack_holds(es.drop_last(), p) {
                        let k = choose|k: int|
                            0 <= k < es.drop_last().len() && (es.drop_last()[k] as int) == p;
                        assert(depth(ts, false, es[k] as int) == k);
                    }
                }
                assert(rs[p] == ts2[p]);
                assert(rs[p] == TokenModel::ExprStart(match_of(ts, false, p) as usize));
                assert forall|k: int| #![trigger es[k]]
                    0 <= k < es.len() implies rs[es[k] as int] == TokenModel::ExprStart(
                        match_of(ts, false, es[k] as int) as usize,
                    ) by {
                    if k < k0 {
                        assert(es.drop_last()[k] == es[k]);
                        assert(match_of(ts2, false, es[k] as int) == match_of(
                            ts,
                            false,
                            es[k] as int,
                        ));
                    }
                }
                assert forall|j: int|
                    i <= j < ts.len() && is_open(ts[j], false) implies #[trigger] rs[j]
                    == TokenModel::ExprStart(match_of(ts, false, j) as usize) by {
                    assert(is_open(ts2[j], false));
                    assert(ts2[j] == ts[j]);
                    assert(match_of(ts2, false, j) == match_of(ts, false, j));
                }
                assert forall|j: int|
                    0 <= j < i && is_open(ts[j], false) && !stack_holds(es, j) implies #[trigger] rs[j]
                    == ts[j] by {
                    assert(j != p);
                    assert(!stack_holds(es.drop_last(), j)) by {
                        if stack_holds(es.drop_last(), j) {
                            let k = choose|k: int|
                                0 <= k < es.drop_last().len() && (es.drop_last()[k] as int) == j;
                            assert(es[k] as int == j);
                        }
                    }
                    assert(is_open(ts2[j], false) && ts2[j] == ts[j]);
                }
                assert forall|j: int|
                    0 <= j < ts.len() && !is_open(ts[j], true) && !is_open(ts[j], false)
                        implies #[trigger] rs[j] == ts[j] by {
                    assert(ts2[j] == ts[j]);
                }
                assert forall|j: int|
                    i <= j < ts.len() && is_open(ts[j], true) implies #[trigger] rs[j]
                    == TokenModel::BlockStart(match_of(ts, true, j) as usize) by {
                    assert(is_open(ts2[j], true) && ts2[j] == ts[j]);
                    assert(match_of(ts2, true, j) == match_of(ts, true, j));
                }
                assert forall|k: int| #![trigger bs[k]]
                    0 <= k < bs.len() implies rs[bs[k] as int]
                    == TokenModel::BlockStart(match_of(ts, true, bs[k] as int) as usize) by {
                    assert(match_of(ts2, true, bs[k] as int) == match_of(ts, true, bs[k] as int));
                }
                assert forall|j: int|
                    0 <= j < i && is_open(ts[j], true) && !stack_holds(bs, j) implies #[trigger] rs[j]
                    == ts[j] by {
                    assert(is_open(ts2[j], true) && ts2[j] == ts[j]);
                }
            },
            _ => {
                assert(depth(ts, true, i + 1) == depth(ts, true, i));
                assert(depth(ts, false, i + 1) == depth(ts, false, i));
                lemma_resolve_from_ok(ts, i + 1, bs, es);
            },
        }
    }
}

/// For every well-formed program with balanced brackets, resolution
/// terminates with both pending stacks empty — it succeeds — and every
/// opening token's payload equals the index of its unique matching close;
/// every other token is left unchanged.
pub proof fn lemma_resolution_matches(ts: Seq<TokenModel>)
    requires
        ts.len() <= usize::MAX,
        balanced(ts),
    ensures
        spec_resolve(ts) is Ok,
        spec_resolve(ts)->Ok_0.len() == ts.len(),
        forall|i: int|
            0 <= i < ts.len() && is_open(ts[i], true) ==> #[trigger] spec_resolve(ts)->Ok_0[i]
                == TokenModel::BlockStart(match_of(ts, true, i) as usize) && is_match(
                ts,
                true,
                i,
                match_of(ts, true, i),
            ),
        forall|i: int|
            0 <= i < ts.len() && is_open(ts[i], false) ==> #[trigger] spec_resolve(ts)->Ok_0[i]
                == TokenModel::ExprStart(match_of(ts, false, i) as usize) && is_match(
                ts,
                false,
                i,
                match_of(ts, false, i),
            ),
        forall|i: int|
            0 <= i < ts.len() && !is_open(ts[i], true) && !is_open(ts[i], false)
                ==> #[trigger] spec_resolve(ts)->Ok_0[i] == ts[i],
{
    lemma_resolve_from_ok(ts, 0, Seq::empty(), Seq::empty());
    assert forall|i: int| 0 <= i < ts.len() && is_open(ts[i], true) implies is_match(
        ts,
        true,
        i,
        match_of(ts, true, i),
    ) by {
        lemma_match_of_valid(ts, true, i);
    }
    assert forall|i: int| 0 <= i < ts.len() && is_open(ts[i], false) implies is_match(
        ts,
        false,
        i,
        match_of(ts, false, i),
    ) by {
        lemma_match_of_valid(ts, false, i);
    }
}

/// The bracket-resolution pass over an already-lexed token sequence. On
/// success every opening token's payload holds the index of its matching
/// close; on failure the sequence is left in an unspecified intermediate
/// state and must not be used.
pub fn preprocessor_firstpass(tokens: &mut Vec<Token>) -> (r: Result<(), CompileError>)
    ensures
        match r {
            Ok(()) => spec_resolve(tview(old(tokens)@)) == Ok::<Seq<TokenModel>, CompileError>(
                tview(final(tokens)@),
            ),
            Err(e) => spec_resolve(tview(old(tokens)@)) == Err::<Seq<TokenModel>, CompileError>(e),
        },
        final(tokens)@.len() == old(tokens)@.len(),
{
    broadcast use crate::token::lemma_tview_update;

    let mut block_stack: Vec<usize> = Vec::new();
    let mut expr_stack: Vec<usize> = Vec::new();
    let len = tokens.len();
    let mut index: usize = 0;
    while index < len
        invariant
            len == tokens@.len(),
            len == old(tokens)@.len(),
            0 <= index <= len,
            forall|k: int| 0 <= k < block_stack@.len() ==> (block_stack@[k] as int) < index,
            forall|k: int| 0 <= k < expr_stack@.len() ==> (expr_stack@[k] as int) < index,
            spec_resolve_from(tview(tokens@), index as int, block_stack@, expr_stack@)
                == spec_resolve(tview(old(tokens)@)),
        decreases len - index,
    {
        let ghost pre_ts = tview(tokens@);
        let ghost pre_bs = block_stack@;
        let ghost pre_es = expr_stack@;
        match &tokens[index] {
            Token::BlockStart(_) => {
                block_stack.push(index);
                proof {
                    assert(pre_ts[index as int] is BlockStart);
                    assert(spec_resolve_from(pre_ts, index as int, pre_bs, pre_es)
                        == spec_resolve_from(pre_ts, index as int + 1, pre_bs.push(index), pre_es));
                }
            },
            Token::BlockEnd => {
                if block_stack.len() == 0 {
                    return Err(CompileError::UnpairedBlockEnd);
                }
                let i = block_stack.pop().unwrap();
                tokens.set(i, Token::BlockStart(index));
                proof {
                    assert(pre_ts[index as int] is BlockEnd);
                    assert(tview(tokens@) == upd(
                        pre_ts,
                        pre_bs.last() as int,
                        TokenModel::BlockStart(index),
                    ));
                    assert(spec_resolve_from(pre_ts, index as int, pre_bs, pre_es)
                        == spec_resolve_from(
                        upd(pre_ts, pre_bs.last() as int, TokenModel::BlockStart(index)),
                        index as int + 1,
                        pre_bs.drop_last(),
                        pre_es,
                    ));
                }
            },
            Token::ExprStart(_) => {
                expr_stack.push(index);
                proof {
                    assert(pre_ts[index as int] is ExprStart);
                    assert(spec_resolve_from(pre_ts, index as int, pre_bs, pre_es)
                        == spec_resolve_from(pre_ts, index as int + 1, pre_bs, pre_es.push(index)));
                }
            },
            Token::ExprEnd => {
                if expr_stack.len() == 0 {
                    return Err(CompileError::UnpairedExprEnd);
                }
                let i = expr_stack.pop().unwrap();
                tokens.set(i, Token::ExprStart(index));
                proof {
                    assert(pre_ts[index as int] is ExprEnd);
                    assert(tview(tokens@) == upd(
                        pre_ts,
                        pre_es.last() as int,
                        TokenModel::ExprStart(index),
                    ));
                    assert(spec_resolve_from(pre_ts, index as int, pre_bs, pre_es)
                        == spec_resolve_from(
                        upd(pre_ts, pre_es.last() as int, TokenModel::ExprStart(index)),
                        index as int + 1,
                        pre_bs,
                        pre_es.drop_last(),
                    ));
                }
            },
            _ => {
                proof {
                    assert(spec_resolve_from(pre_ts, index as int, pre_bs, pre_es)
                        == spec_resolve_from(pre_ts, index as int + 1, pre_bs, pre_es));
                }
            },
        }
        index += 1;
    }
    if block_stack.len() > 0 {
        return Err(CompileError::UnclosedBlock);
    }
    if expr_stack.len() > 0 {
        return Err(CompileError::UnclosedExpr);
    }
    proof {
        lemma_resolve_len(tview(old(tokens)@), 0, Seq::empty(), Seq::empty());
    }
    Ok(())
}

} // verus!
