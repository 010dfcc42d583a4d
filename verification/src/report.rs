//! The report: how many violations of each kind were found, and a line for
//! each of them.

use vstd::prelude::*;
use crate::layout_validator::nodes::Nodes;
use crate::layout_validator::tab_stops::NodeSide;
use crate::layout_validator::validity_rules::{
    views, LayoutViolation, LayoutViolations, ViolationView,
};
use crate::test_sets::{TestSet, TestSetId, TestSets};
use crate::text::{decimal, push_decimal, push_text};

verus! {

/// The kinds of violations.
#[derive(Debug, Clone, Copy, PartialEq, Eq, Structural)]
pub enum ViolationKind {
    Overlap,
    Overflow,
    AlignmentLost,
}

impl ViolationView {
    /// The kind of the violation.
    pub open spec fn kind(self) -> ViolationKind {
        match self {
            ViolationView::Overlap { .. } => ViolationKind::Overlap,
            ViolationView::Overflow { .. } => ViolationKind::Overflow,
            ViolationView::AlignmentLost { .. } => ViolationKind::AlignmentLost,
        }
    }
}

/// How many of the first `n` violations are of the kind.
pub open spec fn count_of_kind(all: Seq<ViolationView>, kind: ViolationKind, n: nat) -> nat
    decreases n,
{
    if n == 0 {
        0
    } else {
        count_of_kind(all, kind, (n - 1) as nat) + if all[n - 1].kind() == kind {
            1nat
        } else {
            0nat
        }
    }
}

/// The text that stands for a node in a line about an overlap or an
/// overflow.
pub open spec fn node_text(nodes: &Nodes, id: i32) -> Seq<char> {
    nodes.node(id).spec_text()
}

/// The line of the report about a violation, without the line feed.
/// There is no line if the violation names a test set or a node that is not
/// there: a lost alignment is looked up in the first of its test sets.
pub open spec fn violation_line(test_sets: &TestSets, v: ViolationView) -> Option<Seq<char>> {
    match v {
        ViolationView::Overlap { test_set, node1, node2, .. } => match test_sets.spec_get(test_set) {
            Some(ts) => if ts.nodes.contains(node1) && ts.nodes.contains(node2) {
                Some(
                    "- Overlap - test-set:"@ + decimal(test_set.0 as int) + " => "@ + node_text(
                        &ts.nodes,
                        node1,
                    ) + " - "@ + node_text(&ts.nodes, node2),
                )
            } else {
                None
            },
            None => None,
        },
        ViolationView::Overflow { test_set, node1, node2, .. } => match test_sets.spec_get(test_set) {
            Some(ts) => if ts.nodes.contains(node1) && ts.nodes.contains(node2) {
                Some(
                    "- Overflow - test-set:"@ + decimal(test_set.0 as int) + " => "@ + node_text(
                        &ts.nodes,
                        node1,
                    ) + " - "@ + node_text(&ts.nodes, node2),
                )
            } else {
                None
            },
            None => None,
        },
        ViolationView::AlignmentLost { a, b, count, test_sets: ids } => if ids.len() == 0 {
            None
        } else {
            match test_sets.spec_get(ids[0]) {
                Some(ts) => if ts.nodes.contains(a.node) && ts.nodes.contains(b.node) {
                    Some(
                        "- AlignmentLost => "@ + a.spec_text() + " @ L:"@ + decimal(
                            ts.nodes.node(a.node).node_data.line as int,
                        ) + " - "@ + b.spec_text() + " @ L:"@ + decimal(
                            ts.nodes.node(b.node).node_data.line as int,
                        ) + " - aligned in "@ + decimal(count as int) + " test sets"@,
                    )
                } else {
                    None
                },
                None => None,
            }
        },
    }
}

/// The lines about the first `n` violations, each ended by a line feed, if
/// each of them has a line.
pub open spec fn violation_lines(test_sets: &TestSets, all: Seq<ViolationView>, n: nat) -> Option<
    Seq<char>,
>
    decreases n,
{
    if n == 0 {
        Some(Seq::empty())
    } else {
        match (violation_lines(test_sets, all, (n - 1) as nat), violation_line(test_sets, all[n - 1])) {
            (Some(before), Some(line)) => Some(before + line + "\n"@),
            _ => None,
        }
    }
}

/// The head of the report: the number of test sets, of violations, and of
/// violations of each kind.
pub open spec fn report_head(n_test_sets: nat, all: Seq<ViolationView>) -> Seq<char> {
    "* # of test sets: - "@ + decimal(n_test_sets as int) + "\n* Total errors: - "@ + decimal(
        all.len() as int,
    ) + "\n\t* Overlaps ------------- : "@ + decimal(
        count_of_kind(all, ViolationKind::Overlap, all.len()) as int,
    ) + "\n\t* Overflows ------------ : "@ + decimal(
        count_of_kind(all, ViolationKind::Overflow, all.len()) as int,
    ) + "\n\t* Total alignment changes: "@ + decimal(
        count_of_kind(all, ViolationKind::AlignmentLost, all.len()) as int,
    ) + "\n"@
}

/// The report on the violations: the head and the lines, if every violation
/// has a line.
pub open spec fn spec_report(test_sets: &TestSets, violations: &LayoutViolations) -> Option<
    Seq<char>,
> {
    let all = violations.spec_all();
    match violation_lines(test_sets, all, all.len()) {
        Some(lines) => Some(report_head(test_sets.sets@.len(), all) + lines),
        None => None,
    }
}

/// The kind of a violation.
pub fn kind_of(v: &LayoutViolation) -> (r: ViolationKind)
    ensures
        r == v@.kind(),
{
    match v {
        LayoutViolation::Overlap { .. } => ViolationKind::Overlap,
        LayoutViolation::Overflow { .. } => ViolationKind::Overflow,
        LayoutViolation::AlignmentLost { .. } => ViolationKind::AlignmentLost,
    }
}

/// Counts the violations of a kind.
pub fn count_kind(all: &Vec<LayoutViolation>, kind: ViolationKind) -> (r: usize)
    ensures
        r == count_of_kind(views(all@), kind, all@.len()),
{
    let mut count: usize = 0;
    let mut i: usize = 0;
    while i < all.len()
        invariant
            i <= all.len(),
            count <= i,
            count == count_of_kind(views(all@), kind, i as nat),
        decreases all.len() - i,
    {
        if kind_of(&all[i]) == kind {
            count += 1;
        }
        i += 1;
    }
    count
}

/// Appends the line about two nodes of a test set that overlap or overflow.
fn push_node_pair(line: &mut String, test_sets: &TestSets, test_set: &TestSetId, node1: i32, node2: i32) -> (ok: bool)
    ensures
        ok <==> (test_sets.spec_get(*test_set) matches Some(ts) && ts.nodes.contains(node1)
            && ts.nodes.contains(node2)),
        ok ==> final(line)@ == old(line)@ + decimal(test_set.0 as int) + " => "@ + node_text(
            &test_sets.spec_get(*test_set)->0.nodes,
            node1,
        ) + " - "@ + node_text(&test_sets.spec_get(*test_set)->0.nodes, node2),
{
    let ts = match test_sets.get(test_set) {
        Some(ts) => ts,
        None => {
            return false;
        },
    };
    let n1 = match ts.nodes.get_from_id(node1) {
        Some(n) => n,
        None => {
            return false;
        },
    };
    let n2 = match ts.nodes.get_from_id(node2) {
        Some(n) => n,
        None => {
            return false;
        },
    };
    push_decimal(line, test_set.0 as i64);
    push_text(line, " => ");
    let first = n1.to_text();
    push_text(line, first.as_str());
    push_text(line, " - ");
    let second = n2.to_text();
    push_text(line, second.as_str());
    proof {
        assert(line@ =~= old(line)@ + decimal(test_set.0 as int) + " => "@ + node_text(
            &ts.nodes,
            node1,
        ) + " - "@ + node_text(&ts.nodes, node2));
    }
    true
}

/// Appends the text of a node side with the line of its node.
fn push_side_with_line(line: &mut String, nodes: &Nodes, side: &NodeSide)
    requires
        nodes.contains(side.node),
    ensures
        final(line)@ == old(line)@ + side.spec_text() + " @ L:"@ + decimal(
            nodes.node(side.node).node_data.line as int,
        ),
{
    let text = side.to_text();
    push_text(line, text.as_str());
    push_text(line, " @ L:");
    let node = nodes.get_from_id(side.node).unwrap();
    push_decimal(line, node.node_data.line as i64);
    proof {
        assert(line@ =~= old(line)@ + side.spec_text() + " @ L:"@ + decimal(
            nodes.node(side.node).node_data.line as int,
        ));
    }
}

/// The line of the report about a violation, if the test set and the nodes
/// that it names are there.
pub fn line_of(test_sets: &TestSets, violation: &LayoutViolation) -> (r: Option<String>)
    ensures
        r is Some <==> violation_line(test_sets, violation@) is Some,
        r matches Some(line) ==> line@ == violation_line(test_sets, violation@)->0,
{
    let mut line = String::new();
    match violation {
        LayoutViolation::Overlap { test_set, node1, node2, .. } => {
            push_text(&mut line, "- Overlap - test-set:");
            if !push_node_pair(&mut line, test_sets, test_set, *node1, *node2) {
                return None;
            }
            proof {
                assert(line@ =~= violation_line(test_sets, violation@)->0);
            }
        },
        LayoutViolation::Overflow { test_set, node1, node2, .. } => {
            push_text(&mut line, "- Overflow - test-set:");
            if !push_node_pair(&mut line, test_sets, test_set, *node1, *node2) {
                return None;
            }
            proof {
                assert(line@ =~= violation_line(test_sets, violation@)->0);
            }
        },
        LayoutViolation::AlignmentLost { a, b, count, test_sets: ids } => {
            if ids.len() == 0 {
                return None;
            }
            let ts = match test_sets.get(&ids[0]) {
                Some(ts) => ts,
                None => {
                    return None;
                },
            };
            if ts.nodes.get_from_id(a.node).is_none() || ts.nodes.get_from_id(b.node).is_none() {
                return None;
            }
            push_text(&mut line, "- AlignmentLost => ");
            push_side_with_line(&mut line, &ts.nodes, a);
            push_text(&mut line, " - ");
            push_side_with_line(&mut line, &ts.nodes, b);
            push_text(&mut line, " - aligned in ");
            push_decimal(&mut line, *count as i64);
            push_text(&mut line, " test sets");
            proof {
                assert(line@ =~= violation_line(test_sets, violation@)->0);
            }
        },
    }
    Some(line)
}

/// Writes the report on the violations: a head with the number of test
/// sets, of violations, and of violations of each kind, and then a line for
/// each violation, overflows first, then overlaps, then lost alignments.
/// There is no report if a violation names a test set or a node that is not
/// there.
pub fn generate_violations_report(test_sets: &TestSets, violations: &LayoutViolations) -> (r:
    Option<String>)
    ensures
        r is Some <==> spec_report(test_sets, violations) is Some,
        r matches Some(report) ==> report@ == spec_report(test_sets, violations)->0,
{
    let all = violations.all();
    let total_overlaps = count_kind(&all, ViolationKind::Overlap);
    let total_overflows = count_kind(&all, ViolationKind::Overflow);
    let total_layout_changes = count_kind(&all, ViolationKind::AlignmentLost);
    let mut ret = String::new();
    push_text(&mut ret, "* # of test sets: - ");
    push_usize(&mut ret, test_sets.sets.len());
    push_text(&mut ret, "\n* Total errors: - ");
    push_usize(&mut ret, all.len());
    push_text(&mut ret, "\n\t* Overlaps ------------- : ");
    push_usize(&mut ret, total_overlaps);
    push_text(&mut ret, "\n\t* Overflows ------------ : ");
    push_usize(&mut ret, total_overflows);
    push_text(&mut ret, "\n\t* Total alignment changes: ");
    push_usize(&mut ret, total_layout_changes);
    push_text(&mut ret, "\n");
    let ghost head = ret@;
    proof {
        assert(head =~= report_head(test_sets.sets@.len(), views(all@)));
    }
    let mut i: usize = 0;
    while i < all.len()
        invariant
            i <= all.len(),
            views(all@) == violations.spec_all(),
            violation_lines(test_sets, views(all@), i as nat) is Some,
            ret@ == head + violation_lines(test_sets, views(all@), i as nat)->0,
        decreases all.len() - i,
    {
        let ghost so_far = violation_lines(test_sets, views(all@), i as nat)->0;
        proof {
            assert(views(all@)[i as int] == all@[i as int]@);
        }
        match line_of(test_sets, &all[i]) {
            Some(line) => {
                push_text(&mut ret, line.as_str());
                push_text(&mut ret, "\n");
                proof {
                    assert(ret@ =~= head + (so_far + line@ + "\n"@));
                }
            },
            None => {
                proof {
                    lemma_no_line_no_lines(test_sets, views(all@), (i + 1) as nat, all@.len());
                }
                return None;
            },
        }
        i += 1;
    }
    Some(ret)
}

/// Once a violation has no line, there are no lines whatever follows.
pub proof fn lemma_no_line_no_lines(test_sets: &TestSets, all: Seq<ViolationView>, k: nat, n: nat)
    requires
        k <= n,
        violation_lines(test_sets, all, k) is None,
    ensures
        violation_lines(test_sets, all, n) is None,
    decreases n,
{
    if k < n {
        lemma_no_line_no_lines(test_sets, all, k, (n - 1) as nat);
    }
}

/// Appends a count in decimal.
fn push_usize(s: &mut String, v: usize)
    ensures
        final(s)@ == old(s)@ + decimal(v as int),
{
    crate::text::push_natural(s, v as u64);
}

} // verus!
