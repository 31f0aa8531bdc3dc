//! Properties of the matcher that hold across calls.
use vstd::prelude::*;
use crate::matcher::{
    MAX_RECURSION_DEPTH, StackV, accept_char, accept_seq, accepting, add_unique, advance,
    advance_alts, alt_end, any_accepts, can_accept, code_points, consumed, elem_at, expand_top,
    init_loop, is_char_top, is_eos, step, step_from, token_allowed, top_matches,
};
use crate::types::{Element, ElementType};

verus! {

proof fn lemma_add_unique_member(acc: Seq<StackV>, s: StackV, x: StackV)
    ensures
        add_unique(acc, s).contains(x) <==> (acc.contains(x) || x == s),
{
    if !acc.contains(s) {
        let r = acc.push(s);
        if r.contains(x) {
            let i = choose|i: int| 0 <= i < r.len() && r[i] == x;
            if i < acc.len() {
                assert(acc[i] == x);
            }
        }
        if acc.contains(x) {
            let i = choose|i: int| 0 <= i < acc.len() && acc[i] == x;
            assert(r[i] == x);
        }
        if x == s {
            assert(r[acc.len() as int] == x);
        }
    } else {
        if x == s {
        }
    }
}

proof fn lemma_empty_not_contains(x: StackV)
    ensures
        !Seq::<StackV>::empty().contains(x),
{
}

pub(crate) proof fn lemma_advance_member(rules: Seq<Seq<Element>>, stack: StackV, acc: Seq<StackV>, depth: int, x: StackV)
    ensures
        advance(rules, stack, acc, depth).contains(x) <==> (acc.contains(x) || advance(
            rules,
            stack,
            Seq::empty(),
            depth,
        ).contains(x)),
    decreases MAX_RECURSION_DEPTH + 1 - depth, 1int, 0int,
{
    lemma_empty_not_contains(x);
    if depth > MAX_RECURSION_DEPTH || depth < 0 {
    } else if stack.len() == 0 {
        lemma_add_unique_member(acc, stack, x);
        lemma_add_unique_member(Seq::empty(), stack, x);
    } else {
        let elem = elem_at(rules, stack.last());
        if elem.etype == ElementType::RuleRef {
            lemma_advance_alts_member(rules, stack, elem.value as int, 0, acc, depth, x);
        } else if is_char_top(elem) {
            lemma_add_unique_member(acc, stack, x);
            lemma_add_unique_member(Seq::empty(), stack, x);
        }
    }
}

pub(crate) proof fn lemma_advance_alts_member(
    rules: Seq<Seq<Element>>,
    stack: StackV,
    ref_id: int,
    subpos: int,
    acc: Seq<StackV>,
    depth: int,
    x: StackV,
)
    ensures
        advance_alts(rules, stack, ref_id, subpos, acc, depth).contains(x) <==> (acc.contains(x)
            || advance_alts(rules, stack, ref_id, subpos, Seq::empty(), depth).contains(x)),
    decreases MAX_RECURSION_DEPTH + 1 - depth, 0int, rules[ref_id].len() - subpos,
{
    lemma_empty_not_contains(x);
    if depth > MAX_RECURSION_DEPTH || depth < 0 || subpos < 0 {
    } else {
        let ns = expand_top(rules, stack, ref_id, subpos);
        let acc2 = advance(rules, ns, acc, depth + 1);
        let e2 = advance(rules, ns, Seq::empty(), depth + 1);
        lemma_advance_member(rules, ns, acc, depth + 1, x);
        let e = alt_end(rules[ref_id], subpos);
        if subpos <= e < rules[ref_id].len() && rules[ref_id][e].etype == ElementType::Alt {
            lemma_advance_alts_member(rules, stack, ref_id, e + 1, acc2, depth, x);
            lemma_advance_alts_member(rules, stack, ref_id, e + 1, e2, depth, x);
        }
    }
}

/// The stacks that consuming `chr` derives from `s`.
pub open spec fn successors(rules: Seq<Seq<Element>>, s: StackV, chr: u32) -> Seq<StackV> {
    if top_matches(rules, s, chr) {
        advance(rules, consumed(rules, s, chr), Seq::empty(), 0)
    } else {
        Seq::empty()
    }
}

proof fn lemma_accept_char_member(rules: Seq<Seq<Element>>, s: StackV, chr: u32, acc: Seq<StackV>, x: StackV)
    ensures
        accept_char(rules, s, chr, acc).contains(x) <==> (acc.contains(x) || successors(
            rules,
            s,
            chr,
        ).contains(x)),
{
    lemma_empty_not_contains(x);
    if top_matches(rules, s, chr) {
        lemma_advance_member(rules, consumed(rules, s, chr), acc, 0, x);
    }
}

proof fn lemma_step_from_member(
    rules: Seq<Seq<Element>>,
    stacks: Seq<StackV>,
    i: int,
    chr: u32,
    acc: Seq<StackV>,
    x: StackV,
)
    requires
        0 <= i <= stacks.len(),
    ensures
        step_from(rules, stacks, i, chr, acc).contains(x) <==> (acc.contains(x) || exists|j: int|
            i <= j < stacks.len() && #[trigger] successors(rules, stacks[j], chr).contains(x)),
    decreases stacks.len() - i,
{
    if i < stacks.len() {
        let acc2 = accept_char(rules, stacks[i], chr, acc);
        lemma_accept_char_member(rules, stacks[i], chr, acc, x);
        lemma_step_from_member(rules, stacks, i + 1, chr, acc2, x);
        if step_from(rules, stacks, i, chr, acc).contains(x) && !acc.contains(x) {
            if !successors(rules, stacks[i], chr).contains(x) {
                let j = choose|j: int|
                    i + 1 <= j < stacks.len() && #[trigger] successors(rules, stacks[j], chr).contains(x);
                assert(i <= j < stacks.len() && successors(rules, stacks[j], chr).contains(x));
            }
        }
        if exists|j: int| i <= j < stacks.len() && #[trigger] successors(rules, stacks[j], chr).contains(x) {
            let j = choose|j: int|
                i <= j < stacks.len() && #[trigger] successors(rules, stacks[j], chr).contains(x);
            if j > i {
                assert(i + 1 <= j < stacks.len() && successors(rules, stacks[j], chr).contains(x));
            }
        }
    }
}

/// A stack is among the stacks after `chr` exactly when some current stack
/// derives it by consuming `chr`.
pub proof fn law_step_member(rules: Seq<Seq<Element>>, stacks: Seq<StackV>, chr: u32, x: StackV)
    ensures
        step(rules, stacks, chr).contains(x) <==> exists|j: int|
            0 <= j < stacks.len() && #[trigger] successors(rules, stacks[j], chr).contains(x),
{
    lemma_empty_not_contains(x);
    lemma_step_from_member(rules, stacks, 0, chr, Seq::empty(), x);
}

proof fn lemma_any_accepts(rules: Seq<Seq<Element>>, stacks: Seq<StackV>, i: int, cps: Seq<u32>)
    requires
        0 <= i <= stacks.len(),
    ensures
        any_accepts(rules, stacks, i, cps) <==> exists|j: int|
            i <= j < stacks.len() && #[trigger] can_accept(rules, stacks[j], cps),
    decreases stacks.len() - i,
{
    if i < stacks.len() {
        lemma_any_accepts(rules, stacks, i + 1, cps);
        if can_accept(rules, stacks[i], cps) {
            assert(i <= i < stacks.len() && can_accept(rules, stacks[i], cps));
        }
        if any_accepts(rules, stacks, i + 1, cps) {
            let j = choose|j: int| i + 1 <= j < stacks.len() && #[trigger] can_accept(rules, stacks[j], cps);
            assert(i <= j < stacks.len() && can_accept(rules, stacks[j], cps));
        }
        if exists|j: int| i <= j < stacks.len() && #[trigger] can_accept(rules, stacks[j], cps) {
            let j = choose|j: int| i <= j < stacks.len() && #[trigger] can_accept(rules, stacks[j], cps);
            if j > i {
                assert(i + 1 <= j < stacks.len() && can_accept(rules, stacks[j], cps));
            }
        }
    }
}

/// All but the last code point are accepted and a resulting stack matches the
/// last one.
pub open spec fn prefix_then_match(rules: Seq<Seq<Element>>, stacks: Seq<StackV>, cps: Seq<u32>) -> bool {
    accept_seq(rules, stacks, cps.drop_last()) matches Ok(t) && exists|k: int|
        0 <= k < t.len() && #[trigger] top_matches(rules, t[k], cps.last())
}

proof fn lemma_accepts_fwd(rules: Seq<Seq<Element>>, stacks: Seq<StackV>, cps: Seq<u32>)
    requires
        cps.len() > 0,
        any_accepts(rules, stacks, 0, cps),
    ensures
        prefix_then_match(rules, stacks, cps),
    decreases cps.len(),
{
    lemma_any_accepts(rules, stacks, 0, cps);
    let c = cps[0];
    let j = choose|j: int| 0 <= j < stacks.len() && #[trigger] can_accept(rules, stacks[j], cps);
    let s = stacks[j];
    assert(top_matches(rules, s, c));
    if cps.len() == 1 {
        assert(cps.drop_last() =~= Seq::<u32>::empty());
        assert(cps.last() == c);
        assert(accept_seq(rules, stacks, cps.drop_last()) == Ok::<Seq<StackV>, u32>(stacks));
        let t = accept_seq(rules, stacks, cps.drop_last())->Ok_0;
        assert(t == stacks);
        assert(top_matches(rules, t[j], cps.last()));
        assert(prefix_then_match(rules, stacks, cps));
    } else {
        let rest = cps.drop_first();
        let next = step(rules, stacks, c);
        let pre = cps.drop_last();
        assert(pre.drop_first() =~= rest.drop_last());
        assert(pre[0] == c);
        assert(rest.last() == cps.last());
        let adv = advance(rules, consumed(rules, s, c), Seq::empty(), 0);
        assert(any_accepts(rules, adv, 0, rest));
        lemma_any_accepts(rules, adv, 0, rest);
        let m = choose|m: int| 0 <= m < adv.len() && #[trigger] can_accept(rules, adv[m], rest);
        let x = adv[m];
        assert(successors(rules, s, c).contains(x));
        law_step_member(rules, stacks, c, x);
        assert(next.contains(x));
        let q = choose|q: int| 0 <= q < next.len() && next[q] == x;
        assert(can_accept(rules, next[q], rest));
        lemma_any_accepts(rules, next, 0, rest);
        lemma_accepts_fwd(rules, next, rest);
        assert(next.len() > 0);
        assert(accept_seq(rules, stacks, pre) == accept_seq(rules, next, rest.drop_last()));
        let t = accept_seq(rules, next, rest.drop_last())->Ok_0;
        let k = choose|k: int| 0 <= k < t.len() && #[trigger] top_matches(rules, t[k], rest.last());
        assert(top_matches(rules, t[k], cps.last()));
        assert(prefix_then_match(rules, stacks, cps));
    }
}

proof fn lemma_accepts_bwd(rules: Seq<Seq<Element>>, stacks: Seq<StackV>, cps: Seq<u32>)
    requires
        cps.len() > 0,
        prefix_then_match(rules, stacks, cps),
    ensures
        any_accepts(rules, stacks, 0, cps),
    decreases cps.len(),
{
    lemma_any_accepts(rules, stacks, 0, cps);
    let c = cps[0];
    let pre = cps.drop_last();
    if cps.len() == 1 {
        assert(pre =~= Seq::<u32>::empty());
        assert(cps.last() == c);
        assert(accept_seq(rules, stacks, pre) == Ok::<Seq<StackV>, u32>(stacks));
        let k = choose|k: int| 0 <= k < stacks.len() && #[trigger] top_matches(rules, stacks[k], cps.last());
        assert(can_accept(rules, stacks[k], cps));
    } else {
        let rest = cps.drop_first();
        let next = step(rules, stacks, c);
        assert(pre.drop_first() =~= rest.drop_last());
        assert(pre[0] == c);
        assert(rest.last() == cps.last());
        assert(next.len() > 0);
        assert(accept_seq(rules, stacks, pre) == accept_seq(rules, next, rest.drop_last()));
        if let Ok(t) = accept_seq(rules, next, rest.drop_last()) {
            let k = choose|k: int| 0 <= k < t.len() && #[trigger] top_matches(rules, t[k], cps.last());
            assert(top_matches(rules, t[k], rest.last()));
        }
        assert(prefix_then_match(rules, next, rest));
        lemma_accepts_bwd(rules, next, rest);
        lemma_any_accepts(rules, next, 0, rest);
        let q = choose|q: int| 0 <= q < next.len() && #[trigger] can_accept(rules, next[q], rest);
        let x = next[q];
        assert(next.contains(x));
        law_step_member(rules, stacks, c, x);
        let j = choose|j: int| 0 <= j < stacks.len() && #[trigger] successors(rules, stacks[j], c).contains(x);
        let s = stacks[j];
        assert(top_matches(rules, s, c));
        let adv = advance(rules, consumed(rules, s, c), Seq::empty(), 0);
        let m = choose|m: int| 0 <= m < adv.len() && adv[m] == x;
        lemma_any_accepts(rules, adv, 0, rest);
        assert(can_accept(rules, adv[m], rest));
        assert(can_accept(rules, s, cps));
    }
}

/// Some stack of `stacks` can consume `cps` (non-empty) exactly when all but
/// the last code point are accepted and a resulting stack matches the last one.
proof fn lemma_accepts_iff(rules: Seq<Seq<Element>>, stacks: Seq<StackV>, cps: Seq<u32>)
    requires
        cps.len() > 0,
    ensures
        any_accepts(rules, stacks, 0, cps) <==> (accept_seq(rules, stacks, cps.drop_last()) matches Ok(
            t,
        ) && exists|k: int| 0 <= k < t.len() && #[trigger] top_matches(rules, t[k], cps.last())),
{
    if any_accepts(rules, stacks, 0, cps) {
        lemma_accepts_fwd(rules, stacks, cps);
    }
    if prefix_then_match(rules, stacks, cps) {
        lemma_accepts_bwd(rules, stacks, cps);
    }
}

/// A non-empty token is allowed exactly when the state accepts all its
/// characters but the last, and a resulting stack matches the last one.
pub proof fn law_allowed_iff_prefix_accepted(rules: Seq<Seq<Element>>, stacks: Seq<StackV>, token: Seq<char>)
    requires
        token.len() > 0,
    ensures
        token_allowed(rules, stacks, token) <==> (accept_seq(
            rules,
            stacks,
            code_points(token).drop_last(),
        ) matches Ok(t) && exists|k: int|
            0 <= k < t.len() && #[trigger] top_matches(rules, t[k], code_points(token).last())),
{
    lemma_accepts_iff(rules, stacks, code_points(token));
}

/// Accepting `a` then `b` is accepting `a + b`: a token may be fed whole or in
/// pieces, with the same resulting stacks and the same rejected character.
pub proof fn law_accept_concat(rules: Seq<Seq<Element>>, stacks: Seq<StackV>, a: Seq<u32>, b: Seq<u32>)
    ensures
        accept_seq(rules, stacks, a + b) == match accept_seq(rules, stacks, a) {
            Ok(t) => accept_seq(rules, t, b),
            Err(c) => Err(c),
        },
    decreases a.len(),
{
    if a.len() == 0 {
        assert(a + b =~= b);
    } else {
        assert((a + b)[0] == a[0]);
        assert((a + b).drop_first() =~= a.drop_first() + b);
        let next = step(rules, stacks, a[0]);
        if next.len() > 0 {
            law_accept_concat(rules, next, a.drop_first(), b);
        }
    }
}

/// A token that is accepted (and is not empty) was allowed.
pub proof fn law_accepted_was_allowed(rules: Seq<Seq<Element>>, stacks: Seq<StackV>, token: Seq<char>)
    requires
        token.len() > 0,
        accept_seq(rules, stacks, code_points(token)) is Ok,
    ensures
        token_allowed(rules, stacks, token),
{
    let cps = code_points(token);
    let a = cps.drop_last();
    let b = seq![cps.last()];
    assert(a + b =~= cps);
    law_accept_concat(rules, stacks, a, b);
    law_allowed_iff_prefix_accepted(rules, stacks, token);
    if let Ok(t) = accept_seq(rules, stacks, a) {
        let c = cps.last();
        assert(b[0] == c);
        assert(b.drop_first() =~= Seq::<u32>::empty());
        let next = step(rules, t, c);
        assert(next.len() > 0);
        let x = next[0];
        assert(next.contains(x));
        law_step_member(rules, t, c, x);
        let j = choose|j: int| 0 <= j < t.len() && #[trigger] successors(rules, t[j], c).contains(x);
        assert(top_matches(rules, t[j], c));
    }
}

/// The empty token is always accepted and changes nothing; it is allowed
/// exactly when the input may end here.
pub proof fn law_empty_token(rules: Seq<Seq<Element>>, stacks: Seq<StackV>)
    ensures
        accept_seq(rules, stacks, code_points(Seq::<char>::empty())) == Ok::<Seq<StackV>, u32>(stacks),
        token_allowed(rules, stacks, Seq::<char>::empty()) == accepting(stacks),
{
    assert(code_points(Seq::<char>::empty()) =~= Seq::<u32>::empty());
}

/// A stack ready to consume input: empty, or with a character element on top.
pub open spec fn expanded(rules: Seq<Seq<Element>>, s: StackV) -> bool {
    s.len() == 0 || is_char_top(elem_at(rules, s.last()))
}

/// Stacks as the matcher keeps them: each ready to consume input, none twice.
pub open spec fn well_kept(rules: Seq<Seq<Element>>, stacks: Seq<StackV>) -> bool {
    &&& stacks.no_duplicates()
    &&& forall|i: int| 0 <= i < stacks.len() ==> expanded(rules, #[trigger] stacks[i])
}

proof fn lemma_add_unique_kept(rules: Seq<Seq<Element>>, acc: Seq<StackV>, s: StackV)
    requires
        well_kept(rules, acc),
        expanded(rules, s),
    ensures
        well_kept(rules, add_unique(acc, s)),
{
    if !acc.contains(s) {
        let r = acc.push(s);
        assert forall|i: int, j: int| 0 <= i < r.len() && 0 <= j < r.len() && i != j implies r[i]
            != r[j] by {
            if i < acc.len() && j < acc.len() {
                assert(r[i] == acc[i] && r[j] == acc[j]);
            } else if i < acc.len() {
                assert(r[i] == acc[i]);
            } else if j < acc.len() {
                assert(r[j] == acc[j]);
            }
        }
        assert forall|i: int| 0 <= i < r.len() implies expanded(rules, #[trigger] r[i]) by {
            if i < acc.len() {
                assert(r[i] == acc[i]);
            }
        }
    }
}

proof fn lemma_advance_kept(rules: Seq<Seq<Element>>, stack: StackV, acc: Seq<StackV>, depth: int)
    requires
        well_kept(rules, acc),
    ensures
        well_kept(rules, advance(rules, stack, acc, depth)),
    decreases MAX_RECURSION_DEPTH + 1 - depth, 1int, 0int,
{
    if depth > MAX_RECURSION_DEPTH || depth < 0 {
    } else if stack.len() == 0 {
        lemma_add_unique_kept(rules, acc, stack);
    } else {
        let elem = elem_at(rules, stack.last());
        if elem.etype == ElementType::RuleRef {
            lemma_advance_alts_kept(rules, stack, elem.value as int, 0, acc, depth);
        } else if is_char_top(elem) {
            lemma_add_unique_kept(rules, acc, stack);
        }
    }
}

proof fn lemma_advance_alts_kept(
    rules: Seq<Seq<Element>>,
    stack: StackV,
    ref_id: int,
    subpos: int,
    acc: Seq<StackV>,
    depth: int,
)
    requires
        well_kept(rules, acc),
    ensures
        well_kept(rules, advance_alts(rules, stack, ref_id, subpos, acc, depth)),
    decreases MAX_RECURSION_DEPTH + 1 - depth, 0int, rules[ref_id].len() - subpos,
{
    if depth > MAX_RECURSION_DEPTH || depth < 0 || subpos < 0 {
    } else {
        let ns = expand_top(rules, stack, ref_id, subpos);
        lemma_advance_kept(rules, ns, acc, depth + 1);
        let acc2 = advance(rules, ns, acc, depth + 1);
        let e = alt_end(rules[ref_id], subpos);
        if subpos <= e < rules[ref_id].len() && rules[ref_id][e].etype == ElementType::Alt {
            lemma_advance_alts_kept(rules, stack, ref_id, e + 1, acc2, depth);
        }
    }
}

proof fn lemma_step_from_kept(rules: Seq<Seq<Element>>, stacks: Seq<StackV>, i: int, chr: u32, acc: Seq<StackV>)
    requires
        well_kept(rules, acc),
    ensures
        well_kept(rules, step_from(rules, stacks, i, chr, acc)),
    decreases stacks.len() - i,
{
    if 0 <= i < stacks.len() {
        if top_matches(rules, stacks[i], chr) {
            lemma_advance_kept(rules, consumed(rules, stacks[i], chr), acc, 0);
        }
        lemma_step_from_kept(rules, stacks, i + 1, chr, accept_char(rules, stacks[i], chr, acc));
    }
}

proof fn lemma_init_loop_kept(rules: Seq<Seq<Element>>, start: usize, ei: int, acc: Seq<StackV>)
    requires
        well_kept(rules, acc),
    ensures
        well_kept(rules, init_loop(rules, start, ei, acc)),
    decreases rules[start as int].len() - ei,
{
    let rule = rules[start as int];
    if 0 <= ei < rule.len() {
        let stack: StackV = if !is_eos(rule[ei]) {
            seq![(start, ei as usize)]
        } else {
            seq![]
        };
        lemma_advance_kept(rules, stack, acc, 0);
        let acc2 = advance(rules, stack, acc, 0);
        let e = alt_end(rule, ei);
        if ei <= e < rule.len() && rule[e].etype == ElementType::Alt {
            lemma_init_loop_kept(rules, start, e + 1, acc2);
        }
    }
}

/// The initial stacks hold no stack twice, and each is empty or has a
/// character element on top.
pub proof fn law_initial_stacks_kept(rules: Seq<Seq<Element>>, start: usize)
    ensures
        well_kept(rules, init_loop(rules, start, 0, Seq::empty())),
{
    lemma_init_loop_kept(rules, start, 0, Seq::empty());
}

/// The stacks after a character hold no stack twice, and each is empty or
/// has a character element on top, whatever the stacks before.
pub proof fn law_step_kept(rules: Seq<Seq<Element>>, stacks: Seq<StackV>, chr: u32)
    ensures
        well_kept(rules, step(rules, stacks, chr)),
{
    lemma_step_from_kept(rules, stacks, 0, chr, Seq::empty());
}

/// Accepting code points keeps the stacks duplicate-free and ready for input.
pub proof fn law_accept_seq_kept(rules: Seq<Seq<Element>>, stacks: Seq<StackV>, cps: Seq<u32>)
    requires
        well_kept(rules, stacks),
    ensures
        accept_seq(rules, stacks, cps) matches Ok(t) ==> well_kept(rules, t),
    decreases cps.len(),
{
    if cps.len() > 0 {
        let next = step(rules, stacks, cps[0]);
        law_step_kept(rules, stacks, cps[0]);
        if next.len() > 0 {
            law_accept_seq_kept(rules, next, cps.drop_first());
        }
    }
}

/// The converse of `law_accepted_was_allowed`: an allowed non-empty token is
/// accepted, provided every stack that matches its last character has some
/// expansion after consuming it (which fails only when the expansion is cut at
/// `MAX_RECURSION_DEPTH`).
pub proof fn law_allowed_is_accepted(rules: Seq<Seq<Element>>, stacks: Seq<StackV>, token: Seq<char>)
    requires
        token.len() > 0,
        token_allowed(rules, stacks, token),
        accept_seq(rules, stacks, code_points(token).drop_last()) matches Ok(t) ==> forall|k: int|
            0 <= k < t.len() && #[trigger] top_matches(rules, t[k], code_points(token).last())
                ==> successors(rules, t[k], code_points(token).last()).len() > 0,
    ensures
        accept_seq(rules, stacks, code_points(token)) is Ok,
{
    let cps = code_points(token);
    let a = cps.drop_last();
    let c = cps.last();
    let b = seq![c];
    assert(a + b =~= cps);
    law_allowed_iff_prefix_accepted(rules, stacks, token);
    law_accept_concat(rules, stacks, a, b);
    if let Ok(t) = accept_seq(rules, stacks, a) {
        let k = choose|k: int| 0 <= k < t.len() && #[trigger] top_matches(rules, t[k], c);
        let succ = successors(rules, t[k], c);
        let x = succ[0];
        assert(succ.contains(x));
        law_step_member(rules, t, c, x);
        let next = step(rules, t, c);
        assert(next.contains(x));
        assert(b[0] == c);
        assert(b.drop_first() =~= Seq::<u32>::empty());
        assert(next.len() > 0);
        assert(accept_seq(rules, next, b.drop_first()) == Ok::<Seq<StackV>, u32>(next));
        assert(accept_seq(rules, t, b) is Ok);
    }
    assert(accept_seq(rules, stacks, a + b) is Ok);
}

/// The code points of two tokens one after the other are those of the first,
/// then those of the second.
pub proof fn law_code_points_concat(a: Seq<char>, b: Seq<char>)
    ensures
        code_points(a + b) == code_points(a) + code_points(b),
{
    assert(code_points(a + b) =~= code_points(a) + code_points(b));
}

/// One stack can consume non-empty code points `cps` exactly when, started
/// alone, it accepts all of them but the last and a resulting stack matches
/// the last one.
pub proof fn law_stack_accepts_iff(rules: Seq<Seq<Element>>, s: StackV, cps: Seq<u32>)
    requires
        cps.len() > 0,
    ensures
        can_accept(rules, s, cps) <==> (accept_seq(rules, seq![s], cps.drop_last()) matches Ok(t)
            && exists|k: int| 0 <= k < t.len() && #[trigger] top_matches(rules, t[k], cps.last())),
{
    lemma_accepts_iff(rules, seq![s], cps);
    assert(any_accepts(rules, seq![s], 1, cps) == false);
    assert(seq![s][0] == s);
}

/// One stack can consume code points `cps` exactly when accepting all of them
/// from that stack alone succeeds, provided every stack that matches the last
/// code point has some expansion after consuming it (which fails only when the
/// expansion is cut at `MAX_RECURSION_DEPTH`).
pub proof fn law_stack_accepts_whole(rules: Seq<Seq<Element>>, s: StackV, cps: Seq<u32>)
    requires
        cps.len() > 0 ==> (accept_seq(rules, seq![s], cps.drop_last()) matches Ok(t) ==> forall|k: int|
            0 <= k < t.len() && #[trigger] top_matches(rules, t[k], cps.last()) ==> successors(
                rules,
                t[k],
                cps.last(),
            ).len() > 0),
    ensures
        can_accept(rules, s, cps) <==> accept_seq(rules, seq![s], cps) is Ok,
{
    if cps.len() > 0 {
        law_stack_accepts_iff(rules, s, cps);
        let a = cps.drop_last();
        let c = cps.last();
        let b = seq![c];
        assert(a + b =~= cps);
        assert(b[0] == c);
        assert(b.drop_first() =~= Seq::<u32>::empty());
        law_accept_concat(rules, seq![s], a, b);
        if let Ok(t) = accept_seq(rules, seq![s], a) {
            let next = step(rules, t, c);
            if can_accept(rules, s, cps) {
                let k = choose|k: int| 0 <= k < t.len() && #[trigger] top_matches(rules, t[k], c);
                let succ = successors(rules, t[k], c);
                let x = succ[0];
                assert(succ.contains(x));
                law_step_member(rules, t, c, x);
                assert(next.contains(x));
                assert(accept_seq(rules, next, b.drop_first()) == Ok::<Seq<StackV>, u32>(next));
            }
            if accept_seq(rules, seq![s], cps) is Ok {
                assert(next.len() > 0);
                let x = next[0];
                assert(next.contains(x));
                law_step_member(rules, t, c, x);
                let j = choose|j: int| 0 <= j < t.len() && #[trigger] successors(rules, t[j], c).contains(x);
                assert(top_matches(rules, t[j], c));
            }
        }
    }
}

} // verus!