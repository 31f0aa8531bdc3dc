//! What the nondeterministic pushdown matcher computes, as spec functions.
use vstd::prelude::*;
use crate::error::ErrorView;
use crate::text::hex4_chars;
use crate::types::{Element, ElementType, wf_rules};

verus! {

/// Deepest nesting of rule expansions followed when expanding a stack.
pub const MAX_RECURSION_DEPTH: usize = 512;

pub type PosV = (usize, usize);

pub type StackV = Seq<(usize, usize)>;

pub open spec fn is_eos(e: Element) -> bool {
    e.etype == ElementType::End || e.etype == ElementType::Alt
}

/// Elements that can stand on top of an expanded stack: Char, CharNot, CharAny.
pub open spec fn is_char_top(e: Element) -> bool {
    e.etype == ElementType::Char || e.etype == ElementType::CharNot || e.etype
        == ElementType::CharAny
}

/// Every position of `stack` names an element of `rules`.
pub open spec fn stack_valid(rules: Seq<Seq<Element>>, stack: StackV) -> bool {
    forall|k: int|
        0 <= k < stack.len() ==> (#[trigger] stack[k]).0 < rules.len() && stack[k].1 < rules[stack[k].0 as int].len()
}

pub open spec fn all_valid(rules: Seq<Seq<Element>>, stacks: Seq<StackV>) -> bool {
    forall|i: int| 0 <= i < stacks.len() ==> stack_valid(rules, #[trigger] stacks[i])
}

/// `acc` with `s` appended unless it is already there.
pub open spec fn add_unique(acc: Seq<StackV>, s: StackV) -> Seq<StackV> {
    if acc.contains(s) {
        acc
    } else {
        acc.push(s)
    }
}

/// Index of the End or Alt that closes the alternative starting at `i`.
pub open spec fn alt_end(rule: Seq<Element>, i: int) -> int
    decreases rule.len() - i,
{
    if 0 <= i < rule.len() && !is_eos(rule[i]) {
        alt_end(rule, i + 1)
    } else {
        i
    }
}

pub open spec fn elem_at(rules: Seq<Seq<Element>>, p: PosV) -> Element {
    rules[p.0 as int][p.1 as int]
}

/// Expands `stack` until its top is a character element (or it is empty),
/// following every alternative of every rule reference, and adds each result
/// not yet in `acc` to `acc`; gives up on expansions nested deeper than
/// `MAX_RECURSION_DEPTH`.
pub open spec fn advance(rules: Seq<Seq<Element>>, stack: StackV, acc: Seq<StackV>, depth: int) -> Seq<StackV>
    decreases MAX_RECURSION_DEPTH + 1 - depth, 1int, 0int,
{
    if depth > MAX_RECURSION_DEPTH || depth < 0 {
        acc
    } else if stack.len() == 0 {
        add_unique(acc, stack)
    } else {
        let elem = elem_at(rules, stack.last());
        if elem.etype == ElementType::RuleRef {
            advance_alts(rules, stack, elem.value as int, 0, acc, depth)
        } else if is_char_top(elem) {
            add_unique(acc, stack)
        } else {
            acc
        }
    }
}

/// The stack that replaces the rule reference on top of `stack` by the
/// alternative of rule `ref_id` starting at `subpos`.
pub open spec fn expand_top(rules: Seq<Seq<Element>>, stack: StackV, ref_id: int, subpos: int) -> StackV {
    let pos = stack.last();
    let next: PosV = (pos.0, (pos.1 + 1) as usize);
    let s1 = if !is_eos(elem_at(rules, next)) {
        stack.drop_last().push(next)
    } else {
        stack.drop_last()
    };
    if !is_eos(rules[ref_id][subpos]) {
        s1.push((ref_id as usize, subpos as usize))
    } else {
        s1
    }
}

/// `advance` over the alternatives of rule `ref_id` from `subpos` on.
pub open spec fn advance_alts(
    rules: Seq<Seq<Element>>,
    stack: StackV,
    ref_id: int,
    subpos: int,
    acc: Seq<StackV>,
    depth: int,
) -> Seq<StackV>
    decreases MAX_RECURSION_DEPTH + 1 - depth, 0int, rules[ref_id].len() - subpos,
{
    if depth > MAX_RECURSION_DEPTH || depth < 0 || subpos < 0 {
        acc
    } else {
        let acc2 = advance(rules, expand_top(rules, stack, ref_id, subpos), acc, depth + 1);
        let e = alt_end(rules[ref_id], subpos);
        if subpos <= e < rules[ref_id].len() && rules[ref_id][e].etype == ElementType::Alt {
            advance_alts(rules, stack, ref_id, e + 1, acc2, depth)
        } else {
            acc2
        }
    }
}

/// Scans the character elements of a character set from `ei`, accumulating
/// whether `chr` is among them; gives the result and the position after the set.
pub open spec fn match_loop(rule: Seq<Element>, ei: int, chr: u32, found: bool) -> (bool, int)
    decreases rule.len() - ei,
{
    if !(0 <= ei < rule.len()) {
        (found, ei)
    } else {
        let (f2, e2) = if ei + 1 < rule.len() && rule[ei + 1].etype == ElementType::CharRngUpper {
            (found || (rule[ei].value <= chr && chr <= rule[ei + 1].value), ei + 2)
        } else if rule[ei].etype == ElementType::CharAny {
            (true, ei + 1)
        } else {
            (found || rule[ei].value == chr, ei + 1)
        };
        if e2 >= rule.len() || rule[e2].etype != ElementType::CharAlt {
            (f2, e2)
        } else {
            match_loop(rule, e2, chr, f2)
        }
    }
}

/// Whether `chr` matches the character set at `pos` (negated for `CharNot`), and
/// the position after the set.
pub open spec fn match_char(rules: Seq<Seq<Element>>, pos: PosV, chr: u32) -> (bool, PosV) {
    let rule = rules[pos.0 as int];
    let elem = rule[pos.1 as int];
    let is_positive = elem.etype == ElementType::Char || elem.etype == ElementType::CharAny;
    let (found, ei) = match_loop(rule, pos.1 as int, chr, false);
    (found == is_positive, (pos.0, ei as usize))
}

/// `stack` whose top character set was just matched: the top is replaced by
/// what follows the set, if anything does in its alternative.
pub open spec fn after_match(rules: Seq<Seq<Element>>, stack: StackV, after: PosV) -> StackV {
    if !is_eos(elem_at(rules, after)) {
        stack.drop_last().push(after)
    } else {
        stack.drop_last()
    }
}

/// Whether the top of `stack` is a character set that accepts `chr`.
pub open spec fn top_matches(rules: Seq<Seq<Element>>, stack: StackV, chr: u32) -> bool {
    stack.len() > 0 && is_char_top(elem_at(rules, stack.last())) && match_char(
        rules,
        stack.last(),
        chr,
    ).0
}

/// The stack after `stack` consumes `chr` (meaningful when `top_matches`).
pub open spec fn consumed(rules: Seq<Seq<Element>>, stack: StackV, chr: u32) -> StackV {
    after_match(rules, stack, match_char(rules, stack.last(), chr).1)
}

/// Consumes `chr` on one stack, adding the expanded successors to `acc`.
pub open spec fn accept_char(rules: Seq<Seq<Element>>, stack: StackV, chr: u32, acc: Seq<StackV>) -> Seq<StackV> {
    if top_matches(rules, stack, chr) {
        advance(rules, consumed(rules, stack, chr), acc, 0)
    } else {
        acc
    }
}

/// `accept_char` over `stacks[i..]`.
pub open spec fn step_from(rules: Seq<Seq<Element>>, stacks: Seq<StackV>, i: int, chr: u32, acc: Seq<StackV>) -> Seq<StackV>
    decreases stacks.len() - i,
{
    if 0 <= i < stacks.len() {
        step_from(rules, stacks, i + 1, chr, accept_char(rules, stacks[i], chr, acc))
    } else {
        acc
    }
}

/// The stacks after consuming `chr`.
pub open spec fn step(rules: Seq<Seq<Element>>, stacks: Seq<StackV>, chr: u32) -> Seq<StackV> {
    step_from(rules, stacks, 0, chr, Seq::empty())
}

/// Consumes the code points one by one; `Err(c)` names the first code point
/// after which no stack remains.
pub open spec fn accept_seq(rules: Seq<Seq<Element>>, stacks: Seq<StackV>, cps: Seq<u32>) -> Result<Seq<StackV>, u32>
    decreases cps.len(),
{
    if cps.len() == 0 {
        Ok(stacks)
    } else {
        let next = step(rules, stacks, cps[0]);
        if next.len() == 0 {
            Err(cps[0])
        } else {
            accept_seq(rules, next, cps.drop_first())
        }
    }
}

/// Whether the code points can all be consumed starting from `stack`.
pub open spec fn can_accept(rules: Seq<Seq<Element>>, stack: StackV, cps: Seq<u32>) -> bool
    decreases cps.len(), 0int, 0int,
{
    if cps.len() == 0 {
        true
    } else if !top_matches(rules, stack, cps[0]) {
        false
    } else if cps.len() == 1 {
        true
    } else {
        any_accepts(rules, advance(rules, consumed(rules, stack, cps[0]), Seq::empty(), 0), 0, cps.drop_first())
    }
}

/// Whether some stack among `stacks[i..]` can consume all the code points.
pub open spec fn any_accepts(rules: Seq<Seq<Element>>, stacks: Seq<StackV>, i: int, cps: Seq<u32>) -> bool
    decreases cps.len(), 1int, stacks.len() - i,
{
    if 0 <= i < stacks.len() {
        can_accept(rules, stacks[i], cps) || any_accepts(rules, stacks, i + 1, cps)
    } else {
        false
    }
}

/// The initial stacks of the alternatives of rule `start` from element `ei` on.
pub open spec fn init_loop(rules: Seq<Seq<Element>>, start: usize, ei: int, acc: Seq<StackV>) -> Seq<StackV>
    decreases rules[start as int].len() - ei,
{
    let rule = rules[start as int];
    if !(0 <= ei < rule.len()) {
        acc
    } else {
        let stack: StackV = if !is_eos(rule[ei]) {
            seq![(start, ei as usize)]
        } else {
            seq![]
        };
        let acc2 = advance(rules, stack, acc, 0);
        let e = alt_end(rule, ei);
        if ei <= e < rule.len() && rule[e].etype == ElementType::Alt {
            init_loop(rules, start, e + 1, acc2)
        } else {
            acc2
        }
    }
}

/// The stacks a matcher starts from, for start rule `start`.
pub open spec fn init_stacks(rules: Seq<Seq<Element>>, start: usize) -> Result<Seq<StackV>, ErrorView> {
    if start >= rules.len() {
        Err(ErrorView::InvalidStartRule(start))
    } else {
        Ok(init_loop(rules, start, 0, Seq::empty()))
    }
}

/// Some stack is empty: the input so far is a complete sentence.
pub open spec fn accepting(stacks: Seq<StackV>) -> bool {
    exists|i: int| 0 <= i < stacks.len() && (#[trigger] stacks[i]).len() == 0
}

/// The code points of a token.
pub open spec fn code_points(s: Seq<char>) -> Seq<u32> {
    s.map_values(|c: char| c as u32)
}

/// Whether a token may come next: an empty token when the input may end here,
/// another one when all its code points can be consumed.
pub open spec fn token_allowed(rules: Seq<Seq<Element>>, stacks: Seq<StackV>, token: Seq<char>) -> bool {
    if token.len() == 0 {
        accepting(stacks)
    } else {
        any_accepts(rules, stacks, 0, code_points(token))
    }
}

/// The message of a rejected token.
pub open spec fn rejected_message(cp: u32, token: Seq<char>) -> Seq<char> {
    "no valid stacks after accepting character U+"@ + hex4_chars(cp as nat) + " in '"@ + token
        + "'"@
}

// ── Facts ──────────────────────────────────────────────────────────

pub proof fn lemma_alt_end(rule: Seq<Element>, i: int)
    requires
        0 <= i < rule.len(),
        is_eos(rule.last()),
    ensures
        i <= alt_end(rule, i) < rule.len(),
        is_eos(rule[alt_end(rule, i)]),
        forall|k: int| i <= k < alt_end(rule, i) ==> !is_eos(#[trigger] rule[k]),
    decreases rule.len() - i,
{
    if !is_eos(rule[i]) {
        lemma_alt_end(rule, i + 1);
    }
}

pub proof fn lemma_add_unique_valid(rules: Seq<Seq<Element>>, acc: Seq<StackV>, s: StackV)
    requires
        all_valid(rules, acc),
        stack_valid(rules, s),
    ensures
        all_valid(rules, add_unique(acc, s)),
{
}

pub proof fn lemma_expand_top_valid(rules: Seq<Seq<Element>>, stack: StackV, ref_id: int, subpos: int)
    requires
        wf_rules(rules),
        stack_valid(rules, stack),
        stack.len() > 0,
        elem_at(rules, stack.last()).etype == ElementType::RuleRef,
        0 <= ref_id < rules.len(),
        0 <= subpos < rules[ref_id].len(),
    ensures
        stack_valid(rules, expand_top(rules, stack, ref_id, subpos)),
{
    let pos = stack.last();
    assert(stack[stack.len() - 1] == pos);
    let rule = rules[pos.0 as int];
    assert(rule.last() == rules[pos.0 as int][rule.len() - 1]);
    assert(pos.1 + 1 < rule.len());
    let next: PosV = (pos.0, (pos.1 + 1) as usize);
    let base = stack.drop_last();
    assert(stack_valid(rules, base)) by {
        assert forall|k: int| 0 <= k < base.len() implies (#[trigger] base[k]).0 < rules.len()
            && base[k].1 < rules[base[k].0 as int].len() by {
            assert(base[k] == stack[k]);
        }
    }
    let s1 = if !is_eos(elem_at(rules, next)) {
        base.push(next)
    } else {
        base
    };
    assert(stack_valid(rules, s1)) by {
        assert forall|k: int| 0 <= k < s1.len() implies (#[trigger] s1[k]).0 < rules.len()
            && s1[k].1 < rules[s1[k].0 as int].len() by {
            if k < base.len() {
                assert(s1[k] == base[k]);
            }
        }
    }
    let s2 = expand_top(rules, stack, ref_id, subpos);
    assert forall|k: int| 0 <= k < s2.len() implies (#[trigger] s2[k]).0 < rules.len()
        && s2[k].1 < rules[s2[k].0 as int].len() by {
        if k < s1.len() {
            assert(s2[k] == s1[k]);
        }
    }
}

pub proof fn lemma_advance_valid(rules: Seq<Seq<Element>>, stack: StackV, acc: Seq<StackV>, depth: int)
    requires
        wf_rules(rules),
        stack_valid(rules, stack),
        all_valid(rules, acc),
    ensures
        all_valid(rules, advance(rules, stack, acc, depth)),
    decreases MAX_RECURSION_DEPTH + 1 - depth, 1int, 0int,
{
    if depth > MAX_RECURSION_DEPTH || depth < 0 {
    } else if stack.len() == 0 {
        lemma_add_unique_valid(rules, acc, stack);
    } else {
        let pos = stack.last();
        assert(stack[stack.len() - 1] == pos);
        let elem = elem_at(rules, pos);
        if elem.etype == ElementType::RuleRef {
            assert(rules[pos.0 as int][pos.1 as int] == elem);
            lemma_advance_alts_valid(rules, stack, elem.value as int, 0, acc, depth);
        } else if is_char_top(elem) {
            lemma_add_unique_valid(rules, acc, stack);
        }
    }
}

pub proof fn lemma_advance_alts_valid(
    rules: Seq<Seq<Element>>,
    stack: StackV,
    ref_id: int,
    subpos: int,
    acc: Seq<StackV>,
    depth: int,
)
    requires
        wf_rules(rules),
        stack_valid(rules, stack),
        stack.len() > 0,
        elem_at(rules, stack.last()).etype == ElementType::RuleRef,
        0 <= ref_id < rules.len(),
        0 <= subpos < rules[ref_id].len(),
        all_valid(rules, acc),
    ensures
        all_valid(rules, advance_alts(rules, stack, ref_id, subpos, acc, depth)),
    decreases MAX_RECURSION_DEPTH + 1 - depth, 0int, rules[ref_id].len() - subpos,
{
    if depth > MAX_RECURSION_DEPTH || depth < 0 || subpos < 0 {
    } else {
        lemma_expand_top_valid(rules, stack, ref_id, subpos);
        lemma_advance_valid(rules, expand_top(rules, stack, ref_id, subpos), acc, depth + 1);
        let acc2 = advance(rules, expand_top(rules, stack, ref_id, subpos), acc, depth + 1);
        let rule = rules[ref_id];
        assert(rule.last() == rules[ref_id][rule.len() - 1]);
        lemma_alt_end(rule, subpos);
        let e = alt_end(rule, subpos);
        if subpos <= e < rule.len() && rule[e].etype == ElementType::Alt {
            lemma_advance_alts_valid(rules, stack, ref_id, e + 1, acc2, depth);
        }
    }
}


pub proof fn lemma_match_loop(rule: Seq<Element>, ei: int, chr: u32, found: bool)
    requires
        0 <= ei < rule.len(),
        !is_eos(rule[ei]),
        is_eos(rule.last()),
    ensures
        ei < match_loop(rule, ei, chr, found).1 < rule.len(),
    decreases rule.len() - ei,
{
    assert(rule.last() == rule[rule.len() - 1]);
    let (f2, e2) = if ei + 1 < rule.len() && rule[ei + 1].etype == ElementType::CharRngUpper {
        (found || (rule[ei].value <= chr && chr <= rule[ei + 1].value), ei + 2)
    } else if rule[ei].etype == ElementType::CharAny {
        (true, ei + 1)
    } else {
        (found || rule[ei].value == chr, ei + 1)
    };
    if !(e2 >= rule.len() || rule[e2].etype != ElementType::CharAlt) {
        lemma_match_loop(rule, e2, chr, f2);
    }
}

/// Consuming a character keeps every stack valid.
pub proof fn lemma_accept_char_valid(rules: Seq<Seq<Element>>, stack: StackV, chr: u32, acc: Seq<StackV>)
    requires
        wf_rules(rules),
        stack_valid(rules, stack),
        all_valid(rules, acc),
    ensures
        all_valid(rules, accept_char(rules, stack, chr, acc)),
{
    if top_matches(rules, stack, chr) {
        let pos = stack.last();
        assert(stack[stack.len() - 1] == pos);
        let rule = rules[pos.0 as int];
        assert(rule.last() == rule[rule.len() - 1]);
        lemma_match_loop(rule, pos.1 as int, chr, false);
        let after = match_char(rules, pos, chr).1;
        let c = consumed(rules, stack, chr);
        assert(stack_valid(rules, c)) by {
            assert forall|k: int| 0 <= k < c.len() implies (#[trigger] c[k]).0 < rules.len()
                && c[k].1 < rules[c[k].0 as int].len() by {
                if k < stack.len() - 1 {
                    assert(c[k] == stack[k]);
                }
            }
        }
        lemma_advance_valid(rules, c, acc, 0);
    }
}

pub proof fn lemma_step_from_valid(rules: Seq<Seq<Element>>, stacks: Seq<StackV>, i: int, chr: u32, acc: Seq<StackV>)
    requires
        wf_rules(rules),
        all_valid(rules, stacks),
        all_valid(rules, acc),
    ensures
        all_valid(rules, step_from(rules, stacks, i, chr, acc)),
    decreases stacks.len() - i,
{
    if 0 <= i < stacks.len() {
        lemma_accept_char_valid(rules, stacks[i], chr, acc);
        lemma_step_from_valid(rules, stacks, i + 1, chr, accept_char(rules, stacks[i], chr, acc));
    }
}

pub proof fn lemma_init_loop_valid(rules: Seq<Seq<Element>>, start: usize, ei: int, acc: Seq<StackV>)
    requires
        wf_rules(rules),
        start < rules.len(),
        all_valid(rules, acc),
    ensures
        all_valid(rules, init_loop(rules, start, ei, acc)),
    decreases rules[start as int].len() - ei,
{
    let rule = rules[start as int];
    if 0 <= ei < rule.len() {
        let stack: StackV = if !is_eos(rule[ei]) {
            seq![(start, ei as usize)]
        } else {
            seq![]
        };
        assert(stack_valid(rules, stack));
        lemma_advance_valid(rules, stack, acc, 0);
        let acc2 = advance(rules, stack, acc, 0);
        let e = alt_end(rule, ei);
        if ei <= e < rule.len() && rule[e].etype == ElementType::Alt {
            lemma_init_loop_valid(rules, start, e + 1, acc2);
        }
    }
}

// ── Character sets ─────────────────────────────────────────────────

/// The member of a character set that starts at element `j` holds `chr`: a
/// range `lo-hi` (when a range end follows) containing it, `.`, or the very
/// character.
pub open spec fn member_has(rule: Seq<Element>, j: int, chr: u32) -> bool {
    if j + 1 < rule.len() && rule[j + 1].etype == ElementType::CharRngUpper {
        rule[j].value <= chr && chr <= rule[j + 1].value
    } else if rule[j].etype == ElementType::CharAny {
        true
    } else {
        rule[j].value == chr
    }
}

/// Some member of the set spanning elements `s..e` holds `chr`; members start
/// at `s` and at every `CharAlt`.
pub open spec fn members_hit(rule: Seq<Element>, s: int, e: int, chr: u32) -> bool {
    exists|j: int| s <= j < e && (j == s || rule[j].etype == ElementType::CharAlt) && #[trigger] member_has(rule, j, chr)
}

/// Elements `s+1..e` continue the set that starts at `s`.
pub open spec fn set_body(rule: Seq<Element>, s: int, e: int) -> bool {
    forall|k: int| s < k < e ==> (#[trigger] rule[k]).etype == ElementType::CharAlt || rule[k].etype
        == ElementType::CharRngUpper
}

proof fn lemma_match_loop_members(rule: Seq<Element>, s: int, ei: int, chr: u32, found: bool)
    requires
        0 <= s <= ei < rule.len(),
        ei == s || rule[ei].etype == ElementType::CharAlt,
        set_body(rule, s, ei),
        found == members_hit(rule, s, ei, chr),
    ensures
        ei < match_loop(rule, ei, chr, found).1 <= rule.len(),
        set_body(rule, s, match_loop(rule, ei, chr, found).1),
        match_loop(rule, ei, chr, found).1 == rule.len() || rule[match_loop(rule, ei, chr, found).1].etype
            != ElementType::CharAlt,
        match_loop(rule, ei, chr, found).0 == members_hit(rule, s, match_loop(rule, ei, chr, found).1, chr),
    decreases rule.len() - ei,
{
    let range = ei + 1 < rule.len() && rule[ei + 1].etype == ElementType::CharRngUpper;
    let e2 = if range { ei + 2 } else { ei + 1 };
    let f2 = found || member_has(rule, ei, chr);
    assert(match_loop(rule, ei, chr, found) == if e2 >= rule.len() || rule[e2].etype != ElementType::CharAlt {
        (f2, e2)
    } else {
        match_loop(rule, e2, chr, f2)
    });
    assert(set_body(rule, s, e2)) by {
        assert forall|k: int| s < k < e2 implies (#[trigger] rule[k]).etype == ElementType::CharAlt
            || rule[k].etype == ElementType::CharRngUpper by {
            if k < ei {
            } else if k == ei {
            } else {
                assert(range && k == ei + 1);
            }
        }
    }
    assert(f2 == members_hit(rule, s, e2, chr)) by {
        if f2 {
            if found {
                let j = choose|j: int| s <= j < ei && (j == s || rule[j].etype == ElementType::CharAlt) && #[trigger] member_has(rule, j, chr);
                assert(s <= j < e2);
            } else {
                assert(s <= ei < e2 && (ei == s || rule[ei].etype == ElementType::CharAlt) && member_has(rule, ei, chr));
            }
        }
        if members_hit(rule, s, e2, chr) {
            let j = choose|j: int| s <= j < e2 && (j == s || rule[j].etype == ElementType::CharAlt) && #[trigger] member_has(rule, j, chr);
            if j < ei {
                assert(members_hit(rule, s, ei, chr));
            } else if j > ei {
                assert(range && j == ei + 1);
                assert(rule[j].etype == ElementType::CharRngUpper);
            }
        }
    }
    if !(e2 >= rule.len() || rule[e2].etype != ElementType::CharAlt) {
        lemma_match_loop_members(rule, s, e2, chr, f2);
    }
}

proof fn lemma_match_loop_end(rule: Seq<Element>, ei: int, c1: u32, f1: bool, c2: u32, f2: bool)
    ensures
        match_loop(rule, ei, c1, f1).1 == match_loop(rule, ei, c2, f2).1,
    decreases rule.len() - ei,
{
    if 0 <= ei < rule.len() {
        let range = ei + 1 < rule.len() && rule[ei + 1].etype == ElementType::CharRngUpper;
        let e2 = if range { ei + 2 } else { ei + 1 };
        let g1 = if range { f1 || (rule[ei].value <= c1 && c1 <= rule[ei + 1].value) } else if rule[ei].etype == ElementType::CharAny { true } else { f1 || rule[ei].value == c1 };
        let g2 = if range { f2 || (rule[ei].value <= c2 && c2 <= rule[ei + 1].value) } else if rule[ei].etype == ElementType::CharAny { true } else { f2 || rule[ei].value == c2 };
        if !(e2 >= rule.len() || rule[e2].etype != ElementType::CharAlt) {
            lemma_match_loop_end(rule, e2, c1, g1, c2, g2);
        }
    }
}

/// A character set accepts a character exactly when some member holds it,
/// for `Char` and `.` sets, and exactly when no member holds it, for `CharNot`
/// sets. The set spans from its first element up to the position returned,
/// over `CharAlt` and `CharRngUpper` elements only, and that span does not
/// depend on the character.
pub proof fn law_match_char_members(rules: Seq<Seq<Element>>, pos: PosV, chr: u32, other: u32)
    requires
        pos.0 < rules.len(),
        pos.1 < rules[pos.0 as int].len(),
        rules[pos.0 as int].len() <= usize::MAX,
    ensures
        match_char(rules, pos, chr).1.0 == pos.0,
        pos.1 < match_char(rules, pos, chr).1.1 <= rules[pos.0 as int].len(),
        set_body(rules[pos.0 as int], pos.1 as int, match_char(rules, pos, chr).1.1 as int),
        match_char(rules, pos, chr).1 == match_char(rules, pos, other).1,
        match_char(rules, pos, chr).0 == ((elem_at(rules, pos).etype == ElementType::Char || elem_at(rules, pos).etype
            == ElementType::CharAny) <==> members_hit(
            rules[pos.0 as int],
            pos.1 as int,
            match_char(rules, pos, chr).1.1 as int,
            chr,
        )),
{
    let rule = rules[pos.0 as int];
    let s = pos.1 as int;
    assert(set_body(rule, s, s));
    assert(!members_hit(rule, s, s, chr));
    lemma_match_loop_members(rule, s, s, chr, false);
    lemma_match_loop_end(rule, s, chr, false, other, false);
    let (found, ei) = match_loop(rule, s, chr, false);
    assert(match_char(rules, pos, chr) == (found == (elem_at(rules, pos).etype == ElementType::Char
        || elem_at(rules, pos).etype == ElementType::CharAny), (pos.0, ei as usize)));
    assert((ei as usize) as int == ei);
}

} // verus!