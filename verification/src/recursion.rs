//! Left-recursion detection: a depth-first walk over the leftmost rule
//! references of every alternative.
use vstd::prelude::*;
use crate::error::{ErrorView, GrammarError};
use crate::matcher::is_eos;
use crate::language::alt_start;
use crate::parse::{rule_shaped, rules_view};
use crate::types::{Element, ElementType, Rules, wf_rules};

verus! {

/// The marks of the walk: rules fully explored, rules on the current path, and
/// rules known to have an empty alternative.
pub struct LrState {
    pub visited: Seq<bool>,
    pub in_progress: Seq<bool>,
    pub may_be_empty: Seq<bool>,
}

pub open spec fn count_false(s: Seq<bool>) -> nat
    decreases s.len(),
{
    if s.len() == 0 {
        0
    } else {
        count_false(s.drop_last()) + if s.last() {
            0nat
        } else {
            1nat
        }
    }
}

pub proof fn lemma_count_false_set(s: Seq<bool>, i: int)
    requires
        0 <= i < s.len(),
        !s[i],
    ensures
        count_false(s.update(i, true)) + 1 == count_false(s),
    decreases s.len(),
{
    if i < s.len() - 1 {
        lemma_count_false_set(s.drop_last(), i);
        assert(s.update(i, true).drop_last() =~= s.drop_last().update(i, true));
    } else {
        assert(s.update(i, true).drop_last() =~= s.drop_last());
    }
}

/// Some alternative of `rule` is empty: the rule starts with End/Alt, or two
/// of them are adjacent.
pub open spec fn has_empty_alternative(rule: Seq<Element>) -> bool {
    (rule.len() > 0 && is_eos(rule[0])) || exists|k: int|
        0 <= k && k + 1 < rule.len() && is_eos(#[trigger] rule[k]) && is_eos(rule[k + 1])
}

/// A complete rule has an empty alternative exactly when one of its
/// alternatives (starting at element 0 or right after an `Alt`) ends at once.
pub proof fn law_empty_alternative(rule: Seq<Element>)
    requires
        rule_shaped(rule),
    ensures
        has_empty_alternative(rule) <==> exists|a: int| #[trigger] alt_start(rule, a) && is_eos(rule[a]),
{
    if has_empty_alternative(rule) {
        if rule.len() > 0 && is_eos(rule[0]) {
            assert(alt_start(rule, 0) && is_eos(rule[0]));
        } else {
            let k = choose|k: int| 0 <= k && k + 1 < rule.len() && is_eos(#[trigger] rule[k]) && is_eos(rule[k + 1]);
            assert(rule.drop_last()[k] == rule[k]);
            assert(rule[k].etype == ElementType::Alt);
            assert(alt_start(rule, k + 1) && is_eos(rule[k + 1]));
        }
    }
    if exists|a: int| #[trigger] alt_start(rule, a) && is_eos(rule[a]) {
        let a = choose|a: int| #[trigger] alt_start(rule, a) && is_eos(rule[a]);
        if a > 0 {
            assert(is_eos(rule[a - 1]));
            assert(0 <= a - 1 && a - 1 + 1 < rule.len() && is_eos(rule[a - 1]) && is_eos(rule[a - 1 + 1]));
        }
    }
}

pub open spec fn lr_sizes_ok(rules: Seq<Seq<Element>>, st: LrState) -> bool {
    st.visited.len() == rules.len() && st.in_progress.len() == rules.len() && st.may_be_empty.len()
        == rules.len()
}

/// Explores rule `i`; true when it is reached again while still on the path.
pub open spec fn dfs(rules: Seq<Seq<Element>>, i: int, st: LrState) -> (bool, LrState)
    decreases count_false(st.in_progress), 0int, 0int,
{
    if !(0 <= i < st.in_progress.len()) {
        (false, st)
    } else if st.in_progress[i] {
        (true, st)
    } else {
        let st1 = LrState {
            visited: st.visited,
            in_progress: st.in_progress.update(i, true),
            may_be_empty: if has_empty_alternative(rules[i]) {
                st.may_be_empty.update(i, true)
            } else {
                st.may_be_empty
            },
        };
        proof {
            lemma_count_false_set(st.in_progress, i);
        }
        let (found, st2) = dfs_elems(rules, i, 0, true, st1);
        if found {
            (true, st2)
        } else {
            (
                false,
                LrState {
                    visited: st2.visited.update(i, true),
                    in_progress: st2.in_progress.update(i, false),
                    may_be_empty: st2.may_be_empty,
                },
            )
        }
    }
}

/// Explores the references of rule `i` from element `j` on that can stand
/// first in their alternative (`recurse`).
pub open spec fn dfs_elems(rules: Seq<Seq<Element>>, i: int, j: int, recurse: bool, st: LrState) -> (
    bool,
    LrState,
)
    decreases count_false(st.in_progress), 1int, rules[i].len() - j,
{
    if !(0 <= j < rules[i].len()) {
        (false, st)
    } else {
        let e = rules[i][j];
        if e.etype == ElementType::RuleRef && recurse {
            let r = e.value as int;
            let (found, st2) = dfs(rules, r, st);
            if found {
                (true, st2)
            } else if st2.in_progress == st.in_progress && r < st2.may_be_empty.len() {
                dfs_elems(rules, i, j + 1, st2.may_be_empty[r], st2)
            } else {
                arbitrary()
            }
        } else {
            dfs_elems(rules, i, j + 1, is_eos(e), st)
        }
    }
}

/// Starts a walk from every rule not yet explored, from `i` on.
pub open spec fn lr_loop(rules: Seq<Seq<Element>>, i: int, st: LrState) -> Option<usize>
    decreases rules.len() - i,
{
    if !(0 <= i < rules.len()) {
        None
    } else if st.visited[i] {
        lr_loop(rules, i + 1, st)
    } else {
        let (found, st2) = dfs(rules, i, st);
        if found {
            Some(i as usize)
        } else {
            lr_loop(rules, i + 1, st2)
        }
    }
}

/// The rule at which left recursion is reported, if any.
pub open spec fn left_recursion(rules: Seq<Seq<Element>>) -> Option<usize> {
    let none = Seq::new(rules.len(), |k: int| false);
    lr_loop(rules, 0, LrState { visited: none, in_progress: none, may_be_empty: none })
}

pub open spec fn lr_view(v: &Vec<bool>, p: &Vec<bool>, m: &Vec<bool>) -> LrState {
    LrState { visited: v@, in_progress: p@, may_be_empty: m@ }
}

proof fn lemma_dfs_unfold(rules: Seq<Seq<Element>>, i: int, st: LrState)
    requires
        0 <= i < st.in_progress.len(),
        !st.in_progress[i],
    ensures
        dfs(rules, i, st) == ({
            let st1 = LrState {
                visited: st.visited,
                in_progress: st.in_progress.update(i, true),
                may_be_empty: if has_empty_alternative(rules[i]) {
                    st.may_be_empty.update(i, true)
                } else {
                    st.may_be_empty
                },
            };
            let (found, st2) = dfs_elems(rules, i, 0, true, st1);
            if found {
                (true, st2)
            } else {
                (
                    false,
                    LrState {
                        visited: st2.visited.update(i, true),
                        in_progress: st2.in_progress.update(i, false),
                        may_be_empty: st2.may_be_empty,
                    },
                )
            }
        }),
{
}

proof fn lemma_dfs_elems_unfold(rules: Seq<Seq<Element>>, i: int, j: int, recurse: bool, st: LrState)
    requires
        0 <= j < rules[i].len(),
    ensures
        dfs_elems(rules, i, j, recurse, st) == ({
            let e = rules[i][j];
            if e.etype == ElementType::RuleRef && recurse {
                let r = e.value as int;
                let (found, st2) = dfs(rules, r, st);
                if found {
                    (true, st2)
                } else if st2.in_progress == st.in_progress && r < st2.may_be_empty.len() {
                    dfs_elems(rules, i, j + 1, st2.may_be_empty[r], st2)
                } else {
                    arbitrary()
                }
            } else {
                dfs_elems(rules, i, j + 1, is_eos(e), st)
            }
        }),
{
}

fn rule_has_empty_alternative(rule: &Vec<Element>) -> (b: bool)
    ensures
        b == has_empty_alternative(rule@),
{
    let mut at_rule_start = true;
    let mut k: usize = 0;
    while k < rule.len()
        invariant
            k <= rule@.len(),
            at_rule_start == (k == 0 || is_eos(rule@[k - 1])),
            !(rule@.len() > 0 && k > 0 && is_eos(rule@[0])),
            forall|m: int| 0 <= m && m + 1 < k ==> !(is_eos(#[trigger] rule@[m]) && is_eos(rule@[m + 1])),
        decreases rule@.len() - k,
    {
        if rule[k].is_end_of_sequence() {
            if at_rule_start {
                proof {
                    if k > 0 {
                        assert(is_eos(rule@[k - 1]) && is_eos(rule@[(k - 1) + 1]));
                    }
                }
                return true;
            }
            at_rule_start = true;
        } else {
            at_rule_start = false;
        }
        k = k + 1;
    }
    false
}

fn detect_lr_recursive(
    rules: &Rules,
    rule_index: usize,
    visited: &mut Vec<bool>,
    in_progress: &mut Vec<bool>,
    may_be_empty: &mut Vec<bool>,
) -> (r: bool)
    requires
        wf_rules(rules_view(rules)),
        lr_sizes_ok(rules_view(rules), lr_view(old(visited), old(in_progress), old(may_be_empty))),
        rule_index < rules@.len(),
    ensures
        (r, lr_view(final(visited), final(in_progress), final(may_be_empty))) == dfs(
            rules_view(rules),
            rule_index as int,
            lr_view(old(visited), old(in_progress), old(may_be_empty)),
        ),
        lr_sizes_ok(rules_view(rules), lr_view(final(visited), final(in_progress), final(may_be_empty))),
        !r ==> final(in_progress)@ == old(in_progress)@,
    decreases count_false(old(in_progress)@), 0nat,
{
    let ghost rv = rules_view(rules);
    let ghost st0 = lr_view(visited, in_progress, may_be_empty);
    if in_progress[rule_index] {
        return true;
    }
    proof {
        lemma_dfs_unfold(rv, rule_index as int, st0);
        lemma_count_false_set(in_progress@, rule_index as int);
    }
    in_progress.set(rule_index, true);
    let rule = &rules[rule_index];
    assert(rule@ == rv[rule_index as int]);
    if rule_has_empty_alternative(rule) {
        may_be_empty.set(rule_index, true);
    }
    let ghost st1 = lr_view(visited, in_progress, may_be_empty);
    let ghost target = dfs_elems(rv, rule_index as int, 0, true, st1);
    let mut recurse_into_nonterminal = true;
    let mut j: usize = 0;
    while j < rule.len()
        invariant
            rv == rules_view(rules),
            wf_rules(rv),
            rule@ == rv[rule_index as int],
            rule_index < rv.len(),
            j <= rule@.len(),
            lr_sizes_ok(rv, lr_view(visited, in_progress, may_be_empty)),
            in_progress@ == st1.in_progress,
            count_false(in_progress@) < count_false(old(in_progress)@),
            target == dfs_elems(rv, rule_index as int, j as int, recurse_into_nonterminal, lr_view(visited, in_progress, may_be_empty)),
            st0 == lr_view(old(visited), old(in_progress), old(may_be_empty)),
            dfs(rv, rule_index as int, st0) == ({
                let (found, st2) = target;
                if found {
                    (true, st2)
                } else {
                    (
                        false,
                        LrState {
                            visited: st2.visited.update(rule_index as int, true),
                            in_progress: st2.in_progress.update(rule_index as int, false),
                            may_be_empty: st2.may_be_empty,
                        },
                    )
                }
            }),
        decreases rule@.len() - j,
    {
        proof {
            lemma_dfs_elems_unfold(rv, rule_index as int, j as int, recurse_into_nonterminal, lr_view(visited, in_progress, may_be_empty));
        }
        let elem = rule[j];
        if elem.etype == ElementType::RuleRef && recurse_into_nonterminal {
            let ref_idx = elem.value as usize;
            assert(rv[rule_index as int][j as int] == elem);
            if detect_lr_recursive(rules, ref_idx, visited, in_progress, may_be_empty) {
                return true;
            }
            if !may_be_empty[ref_idx] {
                recurse_into_nonterminal = false;
            }
        } else {
            recurse_into_nonterminal = elem.is_end_of_sequence();
        }
        j = j + 1;
    }
    in_progress.set(rule_index, false);
    visited.set(rule_index, true);
    proof {
        assert(in_progress@ =~= old(in_progress)@);
    }
    false
}

/// Reports left recursion: a rule that can reach itself through references
/// standing first in an alternative (possibly after references to rules with a
/// directly empty alternative).
pub(crate) fn detect_left_recursion(rules: &Rules) -> (r: Result<(), GrammarError>)
    requires
        wf_rules(rules_view(rules)),
    ensures
        match left_recursion(rules_view(rules)) {
            Some(i) => r matches Err(x) && x@ == ErrorView::LeftRecursion(i),
            None => r is Ok,
        },
{
    let ghost rv = rules_view(rules);
    let n = rules.len();
    let mut visited: Vec<bool> = Vec::new();
    let mut in_progress: Vec<bool> = Vec::new();
    let mut may_be_empty: Vec<bool> = Vec::new();
    let mut k: usize = 0;
    while k < n
        invariant
            n == rules@.len(),
            k <= n,
            visited@ == Seq::new(k as nat, |q: int| false),
            in_progress@ == Seq::new(k as nat, |q: int| false),
            may_be_empty@ == Seq::new(k as nat, |q: int| false),
        decreases n - k,
    {
        visited.push(false);
        in_progress.push(false);
        may_be_empty.push(false);
        k = k + 1;
        assert(visited@ =~= Seq::new(k as nat, |q: int| false));
        assert(in_progress@ =~= Seq::new(k as nat, |q: int| false));
        assert(may_be_empty@ =~= Seq::new(k as nat, |q: int| false));
    }
    assert(lr_view(&visited, &in_progress, &may_be_empty) == LrState {
        visited: Seq::new(rv.len(), |q: int| false),
        in_progress: Seq::new(rv.len(), |q: int| false),
        may_be_empty: Seq::new(rv.len(), |q: int| false),
    });
    let mut i: usize = 0;
    while i < n
        invariant
            rv == rules_view(rules),
            wf_rules(rv),
            n == rv.len(),
            i <= n,
            lr_sizes_ok(rv, lr_view(&visited, &in_progress, &may_be_empty)),
            left_recursion(rv) == lr_loop(rv, i as int, lr_view(&visited, &in_progress, &may_be_empty)),
        decreases n - i,
    {
        if visited[i] {
            i = i + 1;
            continue;
        }
        if detect_lr_recursive(rules, i, &mut visited, &mut in_progress, &mut may_be_empty) {
            return Err(GrammarError::LeftRecursion(i));
        }
        i = i + 1;
    }
    Ok(())
}

// ── Soundness of the walk ──────────────────────────────────────────

/// Element `j` of `rule` can stand first in its alternative: every element
/// before it in the alternative refers to a rule with an empty alternative.
pub open spec fn leads(rules: Seq<Seq<Element>>, rule: Seq<Element>, j: int) -> bool
    decreases j,
{
    if j <= 0 {
        true
    } else if is_eos(rule[j - 1]) {
        true
    } else if rule[j - 1].etype == ElementType::RuleRef && rule[j - 1].value < rules.len()
        && has_empty_alternative(rules[rule[j - 1].value as int]) {
        leads(rules, rule, j - 1)
    } else {
        false
    }
}

/// Rule `b` can be the first thing rule `a` expands to.
pub open spec fn left_ref(rules: Seq<Seq<Element>>, a: int, b: int) -> bool {
    &&& 0 <= a < rules.len()
    &&& exists|j: int|
        0 <= j < rules[a].len() && (#[trigger] rules[a][j]).etype == ElementType::RuleRef
            && rules[a][j].value == b && leads(rules, rules[a], j)
}

/// A chain of at least one `left_ref` step through the rules `p`.
pub open spec fn left_path(rules: Seq<Seq<Element>>, p: Seq<int>) -> bool {
    &&& p.len() >= 2
    &&& forall|k: int| 0 <= k < p.len() - 1 ==> left_ref(rules, #[trigger] p[k], p[k + 1])
}

/// Rule `x` is reached from rule `y` by one or more `left_ref` steps.
pub open spec fn left_reaches(rules: Seq<Seq<Element>>, y: int, x: int) -> bool {
    exists|p: Seq<int>| #[trigger] left_path(rules, p) && p[0] == y && p.last() == x
}

/// Some rule expands, by one or more `left_ref` steps, to itself.
pub open spec fn has_left_cycle(rules: Seq<Seq<Element>>) -> bool {
    exists|p: Seq<int>| #[trigger] left_path(rules, p) && p[0] == p.last()
}

/// The marks the walk keeps are consistent with the rules.
pub open spec fn marks_ok(rules: Seq<Seq<Element>>, st: LrState) -> bool {
    &&& lr_sizes_ok(rules, st)
    &&& forall|k: int| 0 <= k < rules.len() && #[trigger] st.may_be_empty[k] ==> has_empty_alternative(rules[k])
}

proof fn lemma_extend_path(rules: Seq<Seq<Element>>, y: int, x: int, r: int)
    requires
        left_reaches(rules, y, x) || y == x,
        left_ref(rules, x, r),
    ensures
        left_reaches(rules, y, r),
{
    if left_reaches(rules, y, x) {
        let p = choose|p: Seq<int>| #[trigger] left_path(rules, p) && p[0] == y && p.last() == x;
        let q = p.push(r);
        assert forall|k: int| 0 <= k < q.len() - 1 implies left_ref(rules, #[trigger] q[k], q[k + 1]) by {
            if k < p.len() - 1 {
                assert(q[k] == p[k] && q[k + 1] == p[k + 1]);
            } else {
                assert(q[k] == x && q[k + 1] == r);
            }
        }
        assert(left_path(rules, q) && q[0] == y && q.last() == r);
    } else {
        let q = seq![x, r];
        assert forall|k: int| 0 <= k < q.len() - 1 implies left_ref(rules, #[trigger] q[k], q[k + 1]) by {
            assert(k == 0);
        }
        assert(left_path(rules, q) && q[0] == y && q.last() == r);
    }
}

proof fn lemma_cycle(rules: Seq<Seq<Element>>, x: int)
    requires
        left_reaches(rules, x, x),
    ensures
        has_left_cycle(rules),
{
    let p = choose|p: Seq<int>| #[trigger] left_path(rules, p) && p[0] == x && p.last() == x;
    assert(left_path(rules, p) && p[0] == p.last());
}

proof fn lemma_dfs_sound(rules: Seq<Seq<Element>>, x: int, st: LrState)
    requires
        wf_rules(rules),
        marks_ok(rules, st),
        0 <= x < rules.len(),
        forall|y: int| 0 <= y < rules.len() && #[trigger] st.in_progress[y] ==> left_reaches(rules, y, x),
    ensures
        marks_ok(rules, dfs(rules, x, st).1),
        dfs(rules, x, st).0 ==> has_left_cycle(rules),
        !dfs(rules, x, st).0 ==> dfs(rules, x, st).1.in_progress == st.in_progress,
    decreases count_false(st.in_progress), 0int, 0int,
{
    if st.in_progress[x] {
        lemma_cycle(rules, x);
    } else {
        lemma_dfs_unfold(rules, x, st);
        let st1 = LrState {
            visited: st.visited,
            in_progress: st.in_progress.update(x, true),
            may_be_empty: if has_empty_alternative(rules[x]) {
                st.may_be_empty.update(x, true)
            } else {
                st.may_be_empty
            },
        };
        lemma_count_false_set(st.in_progress, x);
        assert(marks_ok(rules, st1)) by {
            assert forall|k: int| 0 <= k < rules.len() && #[trigger] st1.may_be_empty[k] implies has_empty_alternative(rules[k]) by {
                if k != x {
                    assert(st1.may_be_empty[k] == st.may_be_empty[k]);
                }
            }
        }
        assert forall|y: int| 0 <= y < rules.len() && #[trigger] st1.in_progress[y] implies y == x
            || left_reaches(rules, y, x) by {
            if y != x {
                assert(st1.in_progress[y] == st.in_progress[y]);
            }
        }
        lemma_dfs_elems_sound(rules, x, 0, true, st1);
        let (found, st2) = dfs_elems(rules, x, 0, true, st1);
        if !found {
            assert(st2.in_progress.update(x, false) =~= st.in_progress);
        }
    }
}

proof fn lemma_dfs_elems_sound(rules: Seq<Seq<Element>>, x: int, j: int, recurse: bool, st: LrState)
    requires
        wf_rules(rules),
        marks_ok(rules, st),
        0 <= x < rules.len(),
        0 <= j,
        st.in_progress[x],
        forall|y: int| 0 <= y < rules.len() && #[trigger] st.in_progress[y] ==> y == x || left_reaches(rules, y, x),
        recurse ==> leads(rules, rules[x], j),
    ensures
        marks_ok(rules, dfs_elems(rules, x, j, recurse, st).1),
        dfs_elems(rules, x, j, recurse, st).0 ==> has_left_cycle(rules),
        !dfs_elems(rules, x, j, recurse, st).0 ==> dfs_elems(rules, x, j, recurse, st).1.in_progress == st.in_progress,
    decreases count_false(st.in_progress), 1int, rules[x].len() - j,
{
    if j < rules[x].len() {
        lemma_dfs_elems_unfold(rules, x, j, recurse, st);
        let e = rules[x][j];
        if e.etype == ElementType::RuleRef && recurse {
            let r = e.value as int;
            assert(0 <= r < rules.len());
            assert(left_ref(rules, x, r)) by {
                assert(0 <= j < rules[x].len() && rules[x][j].etype == ElementType::RuleRef
                    && rules[x][j].value == r && leads(rules, rules[x], j));
            }
            assert forall|y: int| 0 <= y < rules.len() && #[trigger] st.in_progress[y] implies left_reaches(rules, y, r) by {
                lemma_extend_path(rules, y, x, r);
            }
            lemma_dfs_sound(rules, r, st);
            let (found, st2) = dfs(rules, r, st);
            if !found {
                assert(st2.may_be_empty[r] ==> leads(rules, rules[x], j + 1));
                lemma_dfs_elems_sound(rules, x, j + 1, st2.may_be_empty[r], st2);
            }
        } else {
            lemma_dfs_elems_sound(rules, x, j + 1, is_eos(e), st);
        }
    }
}

proof fn lemma_lr_loop_sound(rules: Seq<Seq<Element>>, i: int, st: LrState)
    requires
        wf_rules(rules),
        marks_ok(rules, st),
        forall|y: int| 0 <= y < rules.len() ==> !#[trigger] st.in_progress[y],
    ensures
        lr_loop(rules, i, st) is Some ==> has_left_cycle(rules),
    decreases rules.len() - i,
{
    if 0 <= i < rules.len() {
        if st.visited[i] {
            lemma_lr_loop_sound(rules, i + 1, st);
        } else {
            lemma_dfs_sound(rules, i, st);
            let (found, st2) = dfs(rules, i, st);
            if !found {
                lemma_lr_loop_sound(rules, i + 1, st2);
            }
        }
    }
}

/// Left recursion is reported only for a grammar in which some rule can
/// expand, through references that stand first in their alternative after
/// rules with an empty alternative, back to itself.
pub proof fn law_left_recursion_sound(rules: Seq<Seq<Element>>)
    requires
        wf_rules(rules),
    ensures
        left_recursion(rules) is Some ==> has_left_cycle(rules),
{
    let none = Seq::new(rules.len(), |k: int| false);
    lemma_lr_loop_sound(rules, 0, LrState { visited: none, in_progress: none, may_be_empty: none });
}

// ── Completeness for one-step left recursion ───────────────────────

proof fn lemma_dfs_frame(rules: Seq<Seq<Element>>, r: int, jw: int, x: int, st: LrState)
    requires
        wf_rules(rules),
        lr_sizes_ok(rules, st),
        0 <= r < rules.len(),
        0 <= jw < rules[r].len(),
        rules[r][jw].etype == ElementType::RuleRef,
        rules[r][jw].value == r,
        leads(rules, rules[r], jw),
    ensures
        lr_sizes_ok(rules, dfs(rules, x, st).1),
        !dfs(rules, x, st).0 ==> dfs(rules, x, st).1.in_progress == st.in_progress,
        !dfs(rules, x, st).0 ==> forall|y: int| 0 <= y < rules.len() && #[trigger] st.may_be_empty[y] ==> dfs(rules, x, st).1.may_be_empty[y],
        !dfs(rules, x, st).0 && 0 <= x < rules.len() && has_empty_alternative(rules[x]) ==> dfs(rules, x, st).1.may_be_empty[x],
        !dfs(rules, x, st).0 && !st.visited[r] ==> !dfs(rules, x, st).1.visited[r],
        x == r && !st.in_progress[r] ==> dfs(rules, x, st).0,
    decreases count_false(st.in_progress), 0int, 0int,
{
    if 0 <= x < st.in_progress.len() && !st.in_progress[x] {
        lemma_dfs_unfold(rules, x, st);
        let st1 = LrState {
            visited: st.visited,
            in_progress: st.in_progress.update(x, true),
            may_be_empty: if has_empty_alternative(rules[x]) {
                st.may_be_empty.update(x, true)
            } else {
                st.may_be_empty
            },
        };
        lemma_count_false_set(st.in_progress, x);
        lemma_elems_frame(rules, r, jw, x, 0, true, st1);
        let (found, st2) = dfs_elems(rules, x, 0, true, st1);
        if !found {
            assert(st2.in_progress.update(x, false) =~= st.in_progress);
            assert forall|y: int| 0 <= y < rules.len() && #[trigger] st.may_be_empty[y] implies st2.may_be_empty[y] by {
                assert(st1.may_be_empty[y]);
            }
            if has_empty_alternative(rules[x]) {
                assert(st1.may_be_empty[x]);
                assert(st2.may_be_empty[x]);
            }
        }
    }
}

proof fn lemma_elems_frame(rules: Seq<Seq<Element>>, r: int, jw: int, x: int, k: int, rec: bool, st: LrState)
    requires
        wf_rules(rules),
        lr_sizes_ok(rules, st),
        0 <= r < rules.len(),
        0 <= jw < rules[r].len(),
        rules[r][jw].etype == ElementType::RuleRef,
        rules[r][jw].value == r,
        leads(rules, rules[r], jw),
        0 <= x < rules.len(),
        0 <= k,
        st.in_progress[x],
    ensures
        lr_sizes_ok(rules, dfs_elems(rules, x, k, rec, st).1),
        !dfs_elems(rules, x, k, rec, st).0 ==> dfs_elems(rules, x, k, rec, st).1.in_progress == st.in_progress,
        !dfs_elems(rules, x, k, rec, st).0 ==> forall|y: int| 0 <= y < rules.len() && #[trigger] st.may_be_empty[y] ==> dfs_elems(rules, x, k, rec, st).1.may_be_empty[y],
        !dfs_elems(rules, x, k, rec, st).0 && !st.visited[r] ==> !dfs_elems(rules, x, k, rec, st).1.visited[r],
        x == r && k <= jw && (leads(rules, rules[r], k) ==> rec) ==> dfs_elems(rules, x, k, rec, st).0,
    decreases count_false(st.in_progress), 1int, rules[x].len() - k,
{
    if k < rules[x].len() {
        lemma_dfs_elems_unfold(rules, x, k, rec, st);
        let e = rules[x][k];
        if e.etype == ElementType::RuleRef && rec {
            let y = e.value as int;
            assert(0 <= y < rules.len());
            lemma_dfs_frame(rules, r, jw, y, st);
            let (found, st2) = dfs(rules, y, st);
            if !found {
                lemma_elems_frame(rules, r, jw, x, k + 1, st2.may_be_empty[y], st2);
                if x == r && k < jw && leads(rules, rules[r], k + 1) {
                    if has_empty_alternative(rules[y]) {
                        assert(st2.may_be_empty[y]);
                    }
                }
                let (f3, st3) = dfs_elems(rules, x, k + 1, st2.may_be_empty[y], st2);
                if !f3 {
                    assert forall|z: int| 0 <= z < rules.len() && #[trigger] st.may_be_empty[z] implies st3.may_be_empty[z] by {
                        assert(st2.may_be_empty[z]);
                    }
                }
                if x == r && k == jw {
                    assert(y == r);
                }
            }
        } else {
            lemma_elems_frame(rules, r, jw, x, k + 1, is_eos(e), st);
        }
    }
}

proof fn lemma_lr_loop_complete(rules: Seq<Seq<Element>>, r: int, jw: int, i: int, st: LrState)
    requires
        wf_rules(rules),
        lr_sizes_ok(rules, st),
        0 <= r < rules.len(),
        0 <= jw < rules[r].len(),
        rules[r][jw].etype == ElementType::RuleRef,
        rules[r][jw].value == r,
        leads(rules, rules[r], jw),
        0 <= i <= r,
        !st.visited[r],
        forall|y: int| 0 <= y < rules.len() ==> !#[trigger] st.in_progress[y],
    ensures
        lr_loop(rules, i, st) is Some,
    decreases r - i,
{
    if st.visited[i] {
        lemma_lr_loop_complete(rules, r, jw, i + 1, st);
    } else {
        lemma_dfs_frame(rules, r, jw, i, st);
        let (found, st2) = dfs(rules, i, st);
        if !found {
            assert(i != r);
            lemma_lr_loop_complete(rules, r, jw, i + 1, st2);
        }
    }
}

/// Left recursion in one step is always found: if a rule can expand to
/// itself first in one of its alternatives (possibly after references to rules
/// with an empty alternative), left recursion is reported.
pub proof fn law_left_recursion_complete_one_step(rules: Seq<Seq<Element>>, r: int)
    requires
        wf_rules(rules),
        left_ref(rules, r, r),
    ensures
        left_recursion(rules) is Some,
{
    let jw = choose|j: int|
        0 <= j < rules[r].len() && (#[trigger] rules[r][j]).etype == ElementType::RuleRef
            && rules[r][j].value == r && leads(rules, rules[r], j);
    let none = Seq::new(rules.len(), |k: int| false);
    lemma_lr_loop_complete(rules, r, jw, 0, LrState { visited: none, in_progress: none, may_be_empty: none });
}

} // verus!