//! The strings a grammar derives, and the soundness of the matcher against them.
use vstd::prelude::*;
use crate::laws::{
    expanded, law_initial_stacks_kept, law_step_kept, law_step_member, lemma_advance_alts_member,
    lemma_advance_member, successors, well_kept,
};
use crate::parse::{body_ok, rule_shaped, rules_shaped};
use crate::matcher::{
    MAX_RECURSION_DEPTH, StackV, accept_seq, accepting, add_unique, advance, advance_alts, all_valid,
    alt_end, consumed, elem_at, expand_top, init_loop, is_char_top, is_eos, lemma_alt_end,
    lemma_advance_valid, lemma_expand_top_valid, lemma_init_loop_valid, lemma_match_loop, lemma_step_from_valid,
    match_char, stack_valid, step, top_matches,
};
use crate::types::{Element, ElementType, wf_rules};

verus! {

/// Element `a` of `rule` begins one of its alternatives.
pub open spec fn alt_start(rule: Seq<Element>, a: int) -> bool {
    0 <= a < rule.len() && (a == 0 || rule[a - 1].etype == ElementType::Alt)
}

/// Whether the sentential form `form` derives the code points `w` using at most
/// `fuel` rule expansions. An item `(r, e)` of the form stands for the rest of
/// the alternative of rule `r` from element `e` on; the last item comes first.
/// A character set derives one code point it contains; a rule reference
/// derives what one of the referenced rule's alternatives derives.
pub open spec fn derives(rules: Seq<Seq<Element>>, form: StackV, w: Seq<u32>, fuel: nat) -> bool
    decreases fuel, 0int, w.len(), form.len(),
{
    if form.len() == 0 {
        w.len() == 0
    } else {
        let p = form.last();
        let e = elem_at(rules, p);
        if is_eos(e) {
            derives(rules, form.drop_last(), w, fuel)
        } else if is_char_top(e) {
            w.len() > 0 && match_char(rules, p, w[0]).0 && derives(
                rules,
                form.drop_last().push(match_char(rules, p, w[0]).1),
                w.drop_first(),
                fuel,
            )
        } else if e.etype == ElementType::RuleRef {
            fuel > 0 && derives_alts(
                rules,
                form.drop_last().push((p.0, (p.1 + 1) as usize)),
                e.value as usize,
                0,
                w,
                (fuel - 1) as nat,
            )
        } else {
            false
        }
    }
}

/// Some alternative of rule `b` starting at or after element `a`, put on top of
/// `base`, derives `w`.
pub open spec fn derives_alts(rules: Seq<Seq<Element>>, base: StackV, b: usize, a: int, w: Seq<u32>, fuel: nat) -> bool
    decreases fuel, 1int, rules[b as int].len() - a, 0int,
{
    if 0 <= a < rules[b as int].len() {
        (alt_start(rules[b as int], a) && derives(rules, base.push((b, a as usize)), w, fuel))
            || derives_alts(rules, base, b, a + 1, w, fuel)
    } else {
        false
    }
}

/// The code-point strings that rule `root` derives.
pub open spec fn in_language(rules: Seq<Seq<Element>>, root: usize, w: Seq<u32>) -> bool {
    exists|fuel: nat| #[trigger] derives_alts(rules, Seq::empty(), root, 0, w, fuel)
}

/// After input `w`, whatever a stack derives completes `w` to a string of the
/// language.
pub open spec fn sound_stacks(rules: Seq<Seq<Element>>, root: usize, w: Seq<u32>, stacks: Seq<StackV>) -> bool {
    forall|j: int, u: Seq<u32>, f: nat|
        0 <= j < stacks.len() && #[trigger] derives(rules, stacks[j], u, f) ==> in_language(
            rules,
            root,
            w + u,
        )
}

proof fn lemma_pick_alt(rules: Seq<Seq<Element>>, base: StackV, b: usize, a0: int, a: int, w: Seq<u32>, f: nat)
    requires
        0 <= a0 <= a,
        alt_start(rules[b as int], a),
        derives(rules, base.push((b, a as usize)), w, f),
    ensures
        derives_alts(rules, base, b, a0, w, f),
    decreases a - a0,
{
    if a0 < a {
        lemma_pick_alt(rules, base, b, a0 + 1, a, w, f);
    }
}

proof fn lemma_insert_eos(rules: Seq<Seq<Element>>, a: StackV, p: (usize, usize), b: StackV, u: Seq<u32>, f: nat)
    requires
        is_eos(elem_at(rules, p)),
        derives(rules, a + b, u, f),
    ensures
        derives(rules, a.push(p) + b, u, f),
    decreases f, 0int, u.len(), b.len(),
{
    let g = a.push(p) + b;
    if b.len() == 0 {
        assert(a + b =~= a);
        assert(g =~= a.push(p));
        assert(g.drop_last() =~= a);
    } else {
        let fm = a + b;
        let q = b.last();
        assert(fm.last() == q);
        assert(g.last() == q);
        let b1 = b.drop_last();
        assert(fm.drop_last() =~= a + b1);
        assert(g.drop_last() =~= a.push(p) + b1);
        let e = elem_at(rules, q);
        if is_eos(e) {
            lemma_insert_eos(rules, a, p, b1, u, f);
        } else if is_char_top(e) {
            let after = match_char(rules, q, u[0]).1;
            assert(fm.drop_last().push(after) =~= a + b1.push(after));
            assert(g.drop_last().push(after) =~= a.push(p) + b1.push(after));
            lemma_insert_eos(rules, a, p, b1.push(after), u.drop_first(), f);
        } else if e.etype == ElementType::RuleRef {
            let next = (q.0, (q.1 + 1) as usize);
            assert(fm.drop_last().push(next) =~= a + b1.push(next));
            assert(g.drop_last().push(next) =~= a.push(p) + b1.push(next));
            lemma_insert_eos_alts(rules, a, p, b1.push(next), e.value as usize, 0, u, (f - 1) as nat);
        }
    }
}

proof fn lemma_insert_eos_alts(
    rules: Seq<Seq<Element>>,
    a: StackV,
    p: (usize, usize),
    b: StackV,
    r: usize,
    k: int,
    u: Seq<u32>,
    f: nat,
)
    requires
        is_eos(elem_at(rules, p)),
        derives_alts(rules, a + b, r, k, u, f),
    ensures
        derives_alts(rules, a.push(p) + b, r, k, u, f),
    decreases f, 1int, rules[r as int].len() - k, 0int,
{
    if 0 <= k < rules[r as int].len() {
        let item = (r, k as usize);
        if alt_start(rules[r as int], k) && derives(rules, (a + b).push(item), u, f) {
            assert((a + b).push(item) =~= a + b.push(item));
            assert((a.push(p) + b).push(item) =~= a.push(p) + b.push(item));
            lemma_insert_eos(rules, a, p, b.push(item), u, f);
        } else {
            lemma_insert_eos_alts(rules, a, p, b, r, k + 1, u, f);
        }
    }
}

/// What the expanded top derives, the rule reference it replaced derives with
/// the alternative starting at `subpos`.
proof fn lemma_expand_top_derives(rules: Seq<Seq<Element>>, s: StackV, b: int, subpos: int, u: Seq<u32>, f: nat)
    requires
        wf_rules(rules),
        s.len() > 0,
        0 <= b < rules.len(),
        0 <= subpos < rules[b].len(),
        derives(rules, expand_top(rules, s, b, subpos), u, f),
    ensures
        derives(
            rules,
            s.drop_last().push((s.last().0, (s.last().1 + 1) as usize)).push((b as usize, subpos as usize)),
            u,
            f,
        ),
{
    let pos = s.last();
    let next = (pos.0, (pos.1 + 1) as usize);
    let item = (b as usize, subpos as usize);
    let d = s.drop_last();
    let full = d.push(next).push(item);
    assert(full.drop_last() =~= d.push(next));
    assert(d.push(next).drop_last() =~= d);
    assert(rules[b][subpos] == elem_at(rules, item));
    let et = expand_top(rules, s, b, subpos);
    assert(full.last() == item);
    assert(d.push(next).last() == next);
    if !is_eos(elem_at(rules, next)) {
        if !is_eos(elem_at(rules, item)) {
            assert(et == full);
        } else {
            assert(et == d.push(next));
            assert(derives(rules, full, u, f));
        }
    } else {
        if !is_eos(elem_at(rules, item)) {
            assert(et == d.push(item));
            assert(d + seq![item] =~= d.push(item));
            lemma_insert_eos(rules, d, next, seq![item], u, f);
            assert(d.push(next) + seq![item] =~= full);
        } else {
            assert(et == d);
            assert(derives(rules, d.push(next), u, f));
            assert(derives(rules, full, u, f));
        }
    }
}

proof fn lemma_not_in_empty(x: StackV)
    ensures
        !Seq::<StackV>::empty().contains(x),
{
}

/// A stack that expansion produced derives nothing the expanded stack does not.
proof fn lemma_lift_advance(rules: Seq<Seq<Element>>, s: StackV, d: int, x: StackV, u: Seq<u32>, f: nat) -> (f2: nat)
    requires
        wf_rules(rules),
        stack_valid(rules, s),
        advance(rules, s, Seq::empty(), d).contains(x),
        derives(rules, x, u, f),
    ensures
        derives(rules, s, u, f2),
    decreases MAX_RECURSION_DEPTH + 1 - d, 1int, 0int,
{
    lemma_not_in_empty(x);
    if d > MAX_RECURSION_DEPTH || d < 0 {
        f
    } else if s.len() == 0 {
        assert(add_unique(Seq::empty(), s) =~= seq![s]);
        f
    } else {
        let pos = s.last();
        assert(s[s.len() - 1] == pos);
        let elem = elem_at(rules, pos);
        if elem.etype == ElementType::RuleRef {
            assert(rules[pos.0 as int][pos.1 as int] == elem);
            let b = elem.value as int;
            assert(rules[b].len() > 0);
            let f1 = lemma_lift_alts(rules, s, b, 0, d, x, u, f);
            f1
        } else if is_char_top(elem) {
            assert(add_unique(Seq::empty(), s) =~= seq![s]);
            f
        } else {
            f
        }
    }
}

proof fn lemma_lift_alts(
    rules: Seq<Seq<Element>>,
    s: StackV,
    b: int,
    subpos: int,
    d: int,
    x: StackV,
    u: Seq<u32>,
    f: nat,
) -> (f2: nat)
    requires
        wf_rules(rules),
        stack_valid(rules, s),
        s.len() > 0,
        elem_at(rules, s.last()).etype == ElementType::RuleRef,
        b == elem_at(rules, s.last()).value,
        0 <= b < rules.len(),
        alt_start(rules[b], subpos),
        advance_alts(rules, s, b, subpos, Seq::empty(), d).contains(x),
        derives(rules, x, u, f),
    ensures
        derives(rules, s, u, f2),
    decreases MAX_RECURSION_DEPTH + 1 - d, 0int, rules[b].len() - subpos,
{
    lemma_not_in_empty(x);
    if d > MAX_RECURSION_DEPTH || d < 0 || subpos < 0 {
        f
    } else {
        let et = expand_top(rules, s, b, subpos);
        let acc2 = advance(rules, et, Seq::empty(), d + 1);
        let rule = rules[b];
        assert(rule.last() == rule[rule.len() - 1]);
        lemma_alt_end(rule, subpos);
        let e = alt_end(rule, subpos);
        let more = subpos <= e < rule.len() && rule[e].etype == ElementType::Alt;
        let mut in_first = true;
        if more {
            lemma_advance_alts_member(rules, s, b, e + 1, acc2, d, x);
            if !acc2.contains(x) {
                in_first = false;
            }
        }
        if in_first {
            lemma_expand_top_valid(rules, s, b, subpos);
            let f1 = lemma_lift_advance(rules, et, d + 1, x, u, f);
            lemma_expand_top_derives(rules, s, b, subpos, u, f1);
            let pos = s.last();
            let base = s.drop_last().push((pos.0, (pos.1 + 1) as usize));
            lemma_pick_alt(rules, base, b as usize, 0, subpos, u, f1);
            f1 + 1
        } else {
            assert(e + 1 < rule.len());
            lemma_lift_alts(rules, s, b, e + 1, d, x, u, f)
        }
    }
}

/// What a stack derives after consuming `c`, the stack derived with `c` first.
proof fn lemma_lift_consumed(rules: Seq<Seq<Element>>, s: StackV, c: u32, u: Seq<u32>, f: nat)
    requires
        top_matches(rules, s, c),
        derives(rules, consumed(rules, s, c), u, f),
    ensures
        derives(rules, s, seq![c] + u, f),
{
    let w = seq![c] + u;
    assert(w[0] == c);
    assert(w.drop_first() =~= u);
    let after = match_char(rules, s.last(), c).1;
    let d = s.drop_last();
    assert(d.push(after).drop_last() =~= d);
    assert(d.push(after).last() == after);
    if is_eos(elem_at(rules, after)) {
        assert(consumed(rules, s, c) == d);
        assert(derives(rules, d.push(after), u, f));
    } else {
        assert(consumed(rules, s, c) == d.push(after));
    }
    assert(derives(rules, d.push(match_char(rules, s.last(), w[0]).1), w.drop_first(), f));
}

proof fn lemma_consumed_valid(rules: Seq<Seq<Element>>, s: StackV, c: u32)
    requires
        wf_rules(rules),
        stack_valid(rules, s),
        top_matches(rules, s, c),
    ensures
        stack_valid(rules, consumed(rules, s, c)),
{
    let pos = s.last();
    assert(s[s.len() - 1] == pos);
    let rule = rules[pos.0 as int];
    assert(rule.last() == rule[rule.len() - 1]);
    lemma_match_loop(rule, pos.1 as int, c, false);
    let cs = consumed(rules, s, c);
    assert forall|k: int| 0 <= k < cs.len() implies (#[trigger] cs[k]).0 < rules.len() && cs[k].1
        < rules[cs[k].0 as int].len() by {
        if k < s.len() - 1 {
            assert(cs[k] == s[k]);
        }
    }
}

/// Consuming `c` keeps every stack sound for the input extended by `c`.
proof fn lemma_step_sound(rules: Seq<Seq<Element>>, root: usize, w: Seq<u32>, stacks: Seq<StackV>, c: u32)
    requires
        wf_rules(rules),
        all_valid(rules, stacks),
        sound_stacks(rules, root, w, stacks),
    ensures
        sound_stacks(rules, root, w.push(c), step(rules, stacks, c)),
{
    let next = step(rules, stacks, c);
    assert forall|j: int, u: Seq<u32>, f: nat|
        0 <= j < next.len() && #[trigger] derives(rules, next[j], u, f) implies in_language(
        rules,
        root,
        w.push(c) + u,
    ) by {
        let x = next[j];
        assert(next.contains(x));
        law_step_member(rules, stacks, c, x);
        let k = choose|k: int| 0 <= k < stacks.len() && #[trigger] successors(rules, stacks[k], c).contains(x);
        let s = stacks[k];
        assert(stack_valid(rules, s));
        lemma_consumed_valid(rules, s, c);
        let f1 = lemma_lift_advance(rules, consumed(rules, s, c), 0, x, u, f);
        lemma_lift_consumed(rules, s, c, u, f1);
        assert(derives(rules, stacks[k], seq![c] + u, f1));
        assert(w.push(c) + u =~= w + (seq![c] + u));
    }
}

proof fn lemma_accept_seq_sound(rules: Seq<Seq<Element>>, root: usize, w: Seq<u32>, stacks: Seq<StackV>, cps: Seq<u32>)
    requires
        wf_rules(rules),
        all_valid(rules, stacks),
        sound_stacks(rules, root, w, stacks),
    ensures
        accept_seq(rules, stacks, cps) matches Ok(t) ==> sound_stacks(rules, root, w + cps, t),
    decreases cps.len(),
{
    if cps.len() == 0 {
        assert(w + cps =~= w);
    } else {
        let c = cps[0];
        let next = step(rules, stacks, c);
        lemma_step_sound(rules, root, w, stacks, c);
        lemma_step_from_valid(rules, stacks, 0, c, Seq::empty());
        if next.len() > 0 {
            lemma_accept_seq_sound(rules, root, w.push(c), next, cps.drop_first());
            assert(w.push(c) + cps.drop_first() =~= w + cps);
        }
    }
}

proof fn lemma_init_sound(rules: Seq<Seq<Element>>, root: usize, ei: int, acc: Seq<StackV>)
    requires
        wf_rules(rules),
        root < rules.len(),
        alt_start(rules[root as int], ei),
        sound_stacks(rules, root, Seq::empty(), acc),
    ensures
        sound_stacks(rules, root, Seq::empty(), init_loop(rules, root, ei, acc)),
    decreases rules[root as int].len() - ei,
{
    let rule = rules[root as int];
    let stack: StackV = if !is_eos(rule[ei]) {
        seq![(root, ei as usize)]
    } else {
        seq![]
    };
    let acc2 = advance(rules, stack, acc, 0);
    assert forall|j: int, u: Seq<u32>, f: nat|
        0 <= j < acc2.len() && #[trigger] derives(rules, acc2[j], u, f) implies in_language(
        rules,
        root,
        Seq::<u32>::empty() + u,
    ) by {
        let x = acc2[j];
        assert(acc2.contains(x));
        lemma_advance_member(rules, stack, acc, 0, x);
        assert(Seq::<u32>::empty() + u =~= u);
        if acc.contains(x) {
            let k = choose|k: int| 0 <= k < acc.len() && acc[k] == x;
            assert(derives(rules, acc[k], u, f));
        } else {
            let item = (root, ei as usize);
            assert(stack_valid(rules, stack));
            let f1 = lemma_lift_advance(rules, stack, 0, x, u, f);
            assert(elem_at(rules, item) == rule[ei]);
            if is_eos(rule[ei]) {
                assert(seq![item].drop_last() =~= Seq::<(usize, usize)>::empty());
            }
            assert(Seq::<(usize, usize)>::empty().push(item) =~= seq![item]);
            lemma_pick_alt(rules, Seq::empty(), root, 0, ei, u, f1);
            assert(derives_alts(rules, Seq::empty(), root, 0, u, f1));
        }
    }
    assert(rule.last() == rule[rule.len() - 1]);
    lemma_alt_end(rule, ei);
    let e = alt_end(rule, ei);
    if ei <= e < rule.len() && rule[e].etype == ElementType::Alt {
        assert(e + 1 < rule.len());
        lemma_init_sound(rules, root, e + 1, acc2);
    }
}

/// The matcher is sound for the grammar's language: once input `w` has been
/// accepted from the start, every string a remaining stack derives completes
/// `w` to a string of the language, and if the state is accepting, `w` itself
/// is in the language.
pub proof fn law_accepted_input_in_language(rules: Seq<Seq<Element>>, root: usize, w: Seq<u32>)
    requires
        wf_rules(rules),
        root < rules.len(),
    ensures
        accept_seq(rules, init_loop(rules, root, 0, Seq::empty()), w) matches Ok(t) ==> {
            &&& sound_stacks(rules, root, w, t)
            &&& accepting(t) ==> in_language(rules, root, w)
        },
{
    let init = init_loop(rules, root, 0, Seq::empty());
    lemma_init_sound(rules, root, 0, Seq::empty());
    lemma_init_loop_valid(rules, root, 0, Seq::empty());
    assert(Seq::<u32>::empty() + w =~= w);
    lemma_accept_seq_sound(rules, root, Seq::empty(), init, w);
    if let Ok(t) = accept_seq(rules, init, w) {
        if accepting(t) {
            let i = choose|i: int| 0 <= i < t.len() && (#[trigger] t[i]).len() == 0;
            assert(derives(rules, t[i], Seq::empty(), 0));
            assert(w + Seq::<u32>::empty() =~= w);
        }
    }
}

// ── Completeness ───────────────────────────────────────────────────

/// `w` is derived from rule `root` with at most `bound` rule expansions.
pub open spec fn derives_within(rules: Seq<Seq<Element>>, root: usize, w: Seq<u32>, bound: nat) -> bool {
    exists|f: nat| f <= bound && #[trigger] derives_alts(rules, Seq::empty(), root, 0, w, f)
}

/// No item of the stack stands at the end of an alternative.
pub open spec fn items_ok(rules: Seq<Seq<Element>>, s: StackV) -> bool {
    forall|i: int| 0 <= i < s.len() ==> !is_eos(elem_at(rules, #[trigger] s[i]))
}

proof fn lemma_remove_eos(rules: Seq<Seq<Element>>, a: StackV, p: (usize, usize), b: StackV, u: Seq<u32>, f: nat)
    requires
        is_eos(elem_at(rules, p)),
        derives(rules, a.push(p) + b, u, f),
    ensures
        derives(rules, a + b, u, f),
    decreases f, 0int, u.len(), b.len(),
{
    let g = a.push(p) + b;
    if b.len() == 0 {
        assert(a + b =~= a);
        assert(g =~= a.push(p));
        assert(g.drop_last() =~= a);
    } else {
        let fm = a + b;
        let q = b.last();
        assert(fm.last() == q);
        assert(g.last() == q);
        let b1 = b.drop_last();
        assert(fm.drop_last() =~= a + b1);
        assert(g.drop_last() =~= a.push(p) + b1);
        let e = elem_at(rules, q);
        if is_eos(e) {
            lemma_remove_eos(rules, a, p, b1, u, f);
        } else if is_char_top(e) {
            let after = match_char(rules, q, u[0]).1;
            assert(fm.drop_last().push(after) =~= a + b1.push(after));
            assert(g.drop_last().push(after) =~= a.push(p) + b1.push(after));
            lemma_remove_eos(rules, a, p, b1.push(after), u.drop_first(), f);
        } else if e.etype == ElementType::RuleRef {
            let next = (q.0, (q.1 + 1) as usize);
            assert(fm.drop_last().push(next) =~= a + b1.push(next));
            assert(g.drop_last().push(next) =~= a.push(p) + b1.push(next));
            lemma_remove_eos_alts(rules, a, p, b1.push(next), e.value as usize, 0, u, (f - 1) as nat);
        }
    }
}

proof fn lemma_remove_eos_alts(
    rules: Seq<Seq<Element>>,
    a: StackV,
    p: (usize, usize),
    b: StackV,
    r: usize,
    k: int,
    u: Seq<u32>,
    f: nat,
)
    requires
        is_eos(elem_at(rules, p)),
        derives_alts(rules, a.push(p) + b, r, k, u, f),
    ensures
        derives_alts(rules, a + b, r, k, u, f),
    decreases f, 1int, rules[r as int].len() - k, 0int,
{
    if 0 <= k < rules[r as int].len() {
        let item = (r, k as usize);
        if alt_start(rules[r as int], k) && derives(rules, (a.push(p) + b).push(item), u, f) {
            assert((a + b).push(item) =~= a + b.push(item));
            assert((a.push(p) + b).push(item) =~= a.push(p) + b.push(item));
            lemma_remove_eos(rules, a, p, b.push(item), u, f);
        } else {
            lemma_remove_eos_alts(rules, a, p, b, r, k + 1, u, f);
        }
    }
}

proof fn lemma_alts_witness(rules: Seq<Seq<Element>>, base: StackV, b: usize, a0: int, u: Seq<u32>, f: nat) -> (a: int)
    requires
        derives_alts(rules, base, b, a0, u, f),
    ensures
        a0 <= a,
        alt_start(rules[b as int], a),
        derives(rules, base.push((b, a as usize)), u, f),
    decreases rules[b as int].len() - a0,
{
    if alt_start(rules[b as int], a0) && derives(rules, base.push((b, a0 as usize)), u, f) {
        a0
    } else {
        lemma_alts_witness(rules, base, b, a0 + 1, u, f)
    }
}

/// What the rule reference with its alternative `subpos` spelled out derives,
/// the matcher's expanded top derives too.
proof fn lemma_expand_top_from(rules: Seq<Seq<Element>>, s: StackV, b: int, subpos: int, u: Seq<u32>, f: nat)
    requires
        wf_rules(rules),
        s.len() > 0,
        0 <= b < rules.len(),
        0 <= subpos < rules[b].len(),
        derives(
            rules,
            s.drop_last().push((s.last().0, (s.last().1 + 1) as usize)).push((b as usize, subpos as usize)),
            u,
            f,
        ),
    ensures
        derives(rules, expand_top(rules, s, b, subpos), u, f),
{
    let pos = s.last();
    let next = (pos.0, (pos.1 + 1) as usize);
    let item = (b as usize, subpos as usize);
    let d = s.drop_last();
    let full = d.push(next).push(item);
    assert(full.drop_last() =~= d.push(next));
    assert(d.push(next).drop_last() =~= d);
    assert(rules[b][subpos] == elem_at(rules, item));
    let et = expand_top(rules, s, b, subpos);
    assert(full.last() == item);
    assert(d.push(next).last() == next);
    if !is_eos(elem_at(rules, next)) {
        if !is_eos(elem_at(rules, item)) {
            assert(et == full);
        } else {
            assert(et == d.push(next));
            assert(derives(rules, d.push(next), u, f));
        }
    } else {
        if !is_eos(elem_at(rules, item)) {
            assert(et == d.push(item));
            assert(d.push(next) + seq![item] =~= full);
            lemma_remove_eos(rules, d, next, seq![item], u, f);
            assert(d + seq![item] =~= d.push(item));
        } else {
            assert(et == d);
            assert(derives(rules, d.push(next), u, f));
            assert(derives(rules, d, u, f));
        }
    }
}

/// The end of an alternative before the last element of a complete rule is an `Alt`.
proof fn lemma_inner_eos_is_alt(rule: Seq<Element>, e: int)
    requires
        rule_shaped(rule),
        0 <= e < rule.len() - 1,
        is_eos(rule[e]),
    ensures
        rule[e].etype == ElementType::Alt,
{
    assert(rule.drop_last()[e] == rule[e]);
}

/// Walking the alternatives of rule `b` from an alternative start reaches
/// every later alternative start.
proof fn lemma_alts_cover(
    rules: Seq<Seq<Element>>,
    s: StackV,
    b: int,
    subpos: int,
    acc: Seq<StackV>,
    d: int,
    a: int,
    x: StackV,
)
    requires
        wf_rules(rules),
        rules_shaped(rules),
        0 <= b < rules.len(),
        0 <= d <= MAX_RECURSION_DEPTH,
        alt_start(rules[b], subpos),
        subpos <= a,
        alt_start(rules[b], a),
        advance(rules, expand_top(rules, s, b, a), Seq::empty(), d + 1).contains(x),
    ensures
        advance_alts(rules, s, b, subpos, acc, d).contains(x),
    decreases rules[b].len() - subpos,
{
    let rule = rules[b];
    assert(rule_shaped(rules[b]));
    assert(rule.last() == rule[rule.len() - 1]);
    lemma_alt_end(rule, subpos);
    let e = alt_end(rule, subpos);
    let et = expand_top(rules, s, b, subpos);
    let acc2 = advance(rules, et, acc, d + 1);
    if subpos == a {
        lemma_advance_member(rules, et, acc, d + 1, x);
        if subpos <= e < rule.len() && rule[e].etype == ElementType::Alt {
            lemma_advance_alts_member(rules, s, b, e + 1, acc2, d, x);
        }
    } else {
        assert(is_eos(rule[a - 1]));
        assert(e <= a - 1);
        lemma_inner_eos_is_alt(rule, e);
        lemma_alts_cover(rules, s, b, e + 1, acc2, d, a, x);
    }
}

/// A derivation from a stack of non-final items that uses at most
/// `MAX_RECURSION_DEPTH - d` expansions is continued by some stack that
/// expansion produces.
proof fn lemma_advance_complete(rules: Seq<Seq<Element>>, s: StackV, d: int, v: Seq<u32>, f: nat) -> (r: (StackV, nat))
    requires
        wf_rules(rules),
        rules_shaped(rules),
        stack_valid(rules, s),
        items_ok(rules, s),
        derives(rules, s, v, f),
        0 <= d,
        d + f <= MAX_RECURSION_DEPTH,
    ensures
        advance(rules, s, Seq::empty(), d).contains(r.0),
        derives(rules, r.0, v, r.1),
        r.1 <= f,
        items_ok(rules, r.0),
    decreases f,
{
    if s.len() == 0 {
        assert(add_unique(Seq::empty(), s) =~= seq![s]);
        assert(seq![s][0] == s);
        (s, f)
    } else {
        let pos = s.last();
        assert(s[s.len() - 1] == pos);
        let elem = elem_at(rules, pos);
        if is_char_top(elem) {
            assert(add_unique(Seq::empty(), s) =~= seq![s]);
            assert(seq![s][0] == s);
            (s, f)
        } else {
            assert(elem.etype == ElementType::RuleRef);
            assert(rules[pos.0 as int][pos.1 as int] == elem);
            let b = elem.value as int;
            let next = (pos.0, (pos.1 + 1) as usize);
            let base = s.drop_last().push(next);
            let a = lemma_alts_witness(rules, base, elem.value as usize, 0, v, (f - 1) as nat);
            lemma_expand_top_from(rules, s, b, a, v, (f - 1) as nat);
            lemma_expand_top_valid(rules, s, b, a);
            let et = expand_top(rules, s, b, a);
            let dl = s.drop_last();
            assert(items_ok(rules, et)) by {
                assert forall|i: int| 0 <= i < et.len() implies !is_eos(elem_at(rules, #[trigger] et[i])) by {
                    if i < dl.len() {
                        assert(et[i] == s[i]);
                    }
                }
            }
            let (x, f2) = lemma_advance_complete(rules, et, d + 1, v, (f - 1) as nat);
            lemma_alts_cover(rules, s, b, 0, Seq::empty(), d, a, x);
            (x, f2)
        }
    }
}

proof fn lemma_step_complete(rules: Seq<Seq<Element>>, stacks: Seq<StackV>, j: int, c: u32, v: Seq<u32>, f: nat) -> (r: (StackV, nat))
    requires
        wf_rules(rules),
        rules_shaped(rules),
        all_valid(rules, stacks),
        well_kept(rules, stacks),
        0 <= j < stacks.len(),
        items_ok(rules, stacks[j]),
        derives(rules, stacks[j], seq![c] + v, f),
        f <= MAX_RECURSION_DEPTH,
    ensures
        step(rules, stacks, c).contains(r.0),
        derives(rules, r.0, v, r.1),
        r.1 <= f,
        items_ok(rules, r.0),
{
    let s = stacks[j];
    let w = seq![c] + v;
    assert(w[0] == c);
    assert(w.drop_first() =~= v);
    assert(expanded(rules, s));
    assert(s.len() > 0);
    let pos = s.last();
    assert(s[s.len() - 1] == pos);
    let after = match_char(rules, pos, c).1;
    let dl = s.drop_last();
    assert(dl.push(after).drop_last() =~= dl);
    assert(dl.push(after).last() == after);
    assert(top_matches(rules, s, c));
    let cs = consumed(rules, s, c);
    assert(is_char_top(elem_at(rules, pos)));
    assert(s.drop_last() == dl);
    assert(derives(rules, dl.push(match_char(rules, pos, w[0]).1), w.drop_first(), f));
    assert(derives(rules, dl.push(after), v, f));
    if is_eos(elem_at(rules, after)) {
        assert(cs == dl);
        assert(derives(rules, dl, v, f));
    } else {
        assert(cs == dl.push(after));
    }
    assert(derives(rules, cs, v, f));
    lemma_consumed_valid(rules, s, c);
    assert(items_ok(rules, cs)) by {
        assert forall|i: int| 0 <= i < cs.len() implies !is_eos(elem_at(rules, #[trigger] cs[i])) by {
            if i < dl.len() {
                assert(cs[i] == s[i]);
            }
        }
    }
    let (x, f2) = lemma_advance_complete(rules, cs, 0, v, f);
    assert(successors(rules, stacks[j], c).contains(x));
    law_step_member(rules, stacks, c, x);
    (x, f2)
}

proof fn lemma_accept_seq_complete(
    rules: Seq<Seq<Element>>,
    stacks: Seq<StackV>,
    w: Seq<u32>,
    v: Seq<u32>,
    j: int,
    f: nat,
) -> (r: (int, nat))
    requires
        wf_rules(rules),
        rules_shaped(rules),
        all_valid(rules, stacks),
        well_kept(rules, stacks),
        0 <= j < stacks.len(),
        items_ok(rules, stacks[j]),
        derives(rules, stacks[j], w + v, f),
        f <= MAX_RECURSION_DEPTH,
    ensures
        accept_seq(rules, stacks, w) matches Ok(t) && 0 <= r.0 < t.len() && items_ok(rules, t[r.0])
            && derives(rules, t[r.0], v, r.1) && r.1 <= f && well_kept(rules, t),
    decreases w.len(),
{
    if w.len() == 0 {
        assert(w + v =~= v);
        (j, f)
    } else {
        let c = w[0];
        assert(w + v =~= seq![c] + (w.drop_first() + v));
        let (x, f2) = lemma_step_complete(rules, stacks, j, c, w.drop_first() + v, f);
        let next = step(rules, stacks, c);
        let k = choose|k: int| 0 <= k < next.len() && next[k] == x;
        lemma_step_from_valid(rules, stacks, 0, c, Seq::empty());
        law_step_kept(rules, stacks, c);
        lemma_accept_seq_complete(rules, next, w.drop_first(), v, k, f2)
    }
}

/// The stack that the initial expansion starts from for the alternative at `a`.
pub open spec fn start_stack(rules: Seq<Seq<Element>>, root: usize, a: int) -> StackV {
    if !is_eos(rules[root as int][a]) {
        seq![(root, a as usize)]
    } else {
        seq![]
    }
}

proof fn lemma_init_keeps(rules: Seq<Seq<Element>>, root: usize, ei: int, acc: Seq<StackV>, x: StackV)
    requires
        acc.contains(x),
    ensures
        init_loop(rules, root, ei, acc).contains(x),
    decreases rules[root as int].len() - ei,
{
    let rule = rules[root as int];
    if 0 <= ei < rule.len() {
        let acc2 = advance(rules, start_stack(rules, root, ei), acc, 0);
        lemma_advance_member(rules, start_stack(rules, root, ei), acc, 0, x);
        let e = alt_end(rule, ei);
        if ei <= e < rule.len() && rule[e].etype == ElementType::Alt {
            lemma_init_keeps(rules, root, e + 1, acc2, x);
        }
    }
}

proof fn lemma_init_covers(rules: Seq<Seq<Element>>, root: usize, ei: int, acc: Seq<StackV>, a: int, x: StackV)
    requires
        wf_rules(rules),
        rules_shaped(rules),
        root < rules.len(),
        alt_start(rules[root as int], ei),
        ei <= a,
        alt_start(rules[root as int], a),
        advance(rules, start_stack(rules, root, a), Seq::empty(), 0).contains(x),
    ensures
        init_loop(rules, root, ei, acc).contains(x),
    decreases rules[root as int].len() - ei,
{
    let rule = rules[root as int];
    assert(rule_shaped(rules[root as int]));
    assert(rule.last() == rule[rule.len() - 1]);
    lemma_alt_end(rule, ei);
    let e = alt_end(rule, ei);
    let acc2 = advance(rules, start_stack(rules, root, ei), acc, 0);
    if ei == a {
        lemma_advance_member(rules, start_stack(rules, root, ei), acc, 0, x);
        if ei <= e < rule.len() && rule[e].etype == ElementType::Alt {
            lemma_init_keeps(rules, root, e + 1, acc2, x);
        }
    } else {
        assert(is_eos(rule[a - 1]));
        assert(e <= a - 1);
        lemma_inner_eos_is_alt(rule, e);
        lemma_init_covers(rules, root, e + 1, acc2, a, x);
    }
}

proof fn lemma_init_complete(rules: Seq<Seq<Element>>, root: usize, u: Seq<u32>, f: nat) -> (r: (int, nat))
    requires
        wf_rules(rules),
        rules_shaped(rules),
        root < rules.len(),
        derives_alts(rules, Seq::empty(), root, 0, u, f),
        f <= MAX_RECURSION_DEPTH,
    ensures
        0 <= r.0 < init_loop(rules, root, 0, Seq::empty()).len(),
        items_ok(rules, init_loop(rules, root, 0, Seq::empty())[r.0]),
        derives(rules, init_loop(rules, root, 0, Seq::empty())[r.0], u, r.1),
        r.1 <= f,
{
    let a = lemma_alts_witness(rules, Seq::empty(), root, 0, u, f);
    let item = (root, a as usize);
    let st = start_stack(rules, root, a);
    assert(Seq::<(usize, usize)>::empty().push(item) =~= seq![item]);
    assert(elem_at(rules, item) == rules[root as int][a]);
    if is_eos(rules[root as int][a]) {
        assert(seq![item].drop_last() =~= Seq::<(usize, usize)>::empty());
    }
    assert(derives(rules, st, u, f));
    assert(stack_valid(rules, st));
    let (x, f2) = lemma_advance_complete(rules, st, 0, u, f);
    lemma_init_covers(rules, root, 0, Seq::empty(), a, x);
    let init = init_loop(rules, root, 0, Seq::empty());
    let k = choose|k: int| 0 <= k < init.len() && init[k] == x;
    (k, f2)
}

/// The matcher is complete for strings derived with at most
/// `MAX_RECURSION_DEPTH` rule expansions: if `w + v` is such a string, then `w`
/// is accepted from the start and a resulting stack derives `v`; when `v` is
/// empty the resulting state is accepting.
pub proof fn law_prefix_accepted(rules: Seq<Seq<Element>>, root: usize, w: Seq<u32>, v: Seq<u32>)
    requires
        wf_rules(rules),
        rules_shaped(rules),
        root < rules.len(),
        derives_within(rules, root, w + v, MAX_RECURSION_DEPTH as nat),
    ensures
        accept_seq(rules, init_loop(rules, root, 0, Seq::empty()), w) matches Ok(t) && (exists|j: int, f: nat|
            0 <= j < t.len() && #[trigger] derives(rules, t[j], v, f)) && (v.len() == 0 ==> accepting(t)),
{
    let f = choose|f: nat| f <= MAX_RECURSION_DEPTH as nat && #[trigger] derives_alts(rules, Seq::empty(), root, 0, w + v, f);
    let init = init_loop(rules, root, 0, Seq::empty());
    let (j, f1) = lemma_init_complete(rules, root, w + v, f);
    lemma_init_loop_valid(rules, root, 0, Seq::empty());
    law_initial_stacks_kept(rules, root);
    let (k, f2) = lemma_accept_seq_complete(rules, init, w, v, j, f1);
    if let Ok(t) = accept_seq(rules, init, w) {
        assert(derives(rules, t[k], v, f2));
        if v.len() == 0 {
            assert(expanded(rules, t[k]));
            assert(t[k].len() == 0);
        }
    }
}

/// After input `w` has been accepted from the start, leaving stacks `t`, a
/// token `tok` is accepted whenever `w + tok` begins a string derived with at
/// most `MAX_RECURSION_DEPTH` rule expansions; when it is accepted, every
/// string a resulting stack derives completes `w + tok` to a string of the
/// language, and the state is accepting exactly when `w + tok` is such a
/// string (only if, for any string of the language).
pub proof fn law_token_accepted_iff_viable(
    rules: Seq<Seq<Element>>,
    root: usize,
    w: Seq<u32>,
    t: Seq<StackV>,
    tok: Seq<u32>,
    v: Seq<u32>,
)
    requires
        wf_rules(rules),
        rules_shaped(rules),
        root < rules.len(),
        accept_seq(rules, init_loop(rules, root, 0, Seq::empty()), w) == Ok::<Seq<StackV>, u32>(t),
    ensures
        derives_within(rules, root, w + tok + v, MAX_RECURSION_DEPTH as nat) ==> accept_seq(rules, t, tok) is Ok,
        accept_seq(rules, t, tok) matches Ok(t2) ==> {
            &&& sound_stacks(rules, root, w + tok, t2)
            &&& accepting(t2) ==> in_language(rules, root, w + tok)
            &&& derives_within(rules, root, w + tok, MAX_RECURSION_DEPTH as nat) ==> accepting(t2)
        },
{
    let init = init_loop(rules, root, 0, Seq::empty());
    crate::laws::law_accept_concat(rules, init, w, tok);
    law_accepted_input_in_language(rules, root, w + tok);
    if derives_within(rules, root, w + tok + v, MAX_RECURSION_DEPTH as nat) {
        assert(w + tok + v =~= (w + tok) + v);
        law_prefix_accepted(rules, root, w + tok, v);
    }
    if derives_within(rules, root, w + tok, MAX_RECURSION_DEPTH as nat) {
        assert(w + tok + Seq::<u32>::empty() =~= w + tok);
        law_prefix_accepted(rules, root, w + tok, Seq::empty());
    }
}

/// The initial stacks: non-empty when the grammar derives some string with at
/// most `MAX_RECURSION_DEPTH` rule expansions, and accepting exactly when the
/// empty string is in the language (the "if" for a derivation within that bound).
pub proof fn law_initial_state(rules: Seq<Seq<Element>>, root: usize, u: Seq<u32>)
    requires
        wf_rules(rules),
        rules_shaped(rules),
        root < rules.len(),
    ensures
        derives_within(rules, root, u, MAX_RECURSION_DEPTH as nat) ==> init_loop(rules, root, 0, Seq::empty()).len() > 0,
        accepting(init_loop(rules, root, 0, Seq::empty())) ==> in_language(rules, root, Seq::empty()),
        derives_within(rules, root, Seq::empty(), MAX_RECURSION_DEPTH as nat) ==> accepting(
            init_loop(rules, root, 0, Seq::empty()),
        ),
{
    let init = init_loop(rules, root, 0, Seq::empty());
    law_accepted_input_in_language(rules, root, Seq::empty());
    assert(accept_seq(rules, init, Seq::empty()) == Ok::<Seq<StackV>, u32>(init));
    if derives_within(rules, root, u, MAX_RECURSION_DEPTH as nat) {
        assert(Seq::<u32>::empty() + u =~= u);
        law_prefix_accepted(rules, root, Seq::empty(), u);
    }
    if derives_within(rules, root, Seq::empty(), MAX_RECURSION_DEPTH as nat) {
        assert(Seq::<u32>::empty() + Seq::<u32>::empty() =~= Seq::<u32>::empty());
        law_prefix_accepted(rules, root, Seq::empty(), Seq::empty());
    }
}

} // verus!