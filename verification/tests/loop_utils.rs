use olive_mir::ir::{BasicBlock, BasicBlockId, Local, MirFunction, Operand, Span, Terminator, TerminatorKind};
use olive_mir::fx::IndexSet;
use std::collections::HashSet;
use olive_mir::loop_utils::{clone_blocks, dominators, find_loops};
fn sp() -> Span {
    Span {
        file_id: 0,
        line: 0,
        col: 0,
        start: 0,
        end: 0,
    }
}

fn func(name: &str, blocks: Vec<BasicBlock>) -> MirFunction {
    MirFunction {
        name: name.into(),
        locals: vec![],
        basic_blocks: blocks,
        arg_count: 0,
        vararg_idx: None,
        kwarg_idx: None,
        param_names: vec![],
        is_async: false,
    }
}

fn bb(term: TerminatorKind) -> BasicBlock {
    BasicBlock {
        statements: vec![],
        terminator: Some(Terminator {
            kind: term,
            span: sp(),
        }),
    }
}

fn goto(target: usize) -> TerminatorKind {
    TerminatorKind::Goto {
        target: BasicBlockId(target),
    }
}

#[test]
fn dominators_single_block() {
    let f = func("f", vec![bb(TerminatorKind::Return)]);
    let doms = dominators(&f);
    assert_eq!(doms.len(), 1);
    assert!(doms[0].contains(0));
}

#[test]
fn dominators_linear() {
    let f = func("f", vec![bb(goto(1)), bb(TerminatorKind::Return)]);
    let doms = dominators(&f);
    assert_eq!(doms.len(), 2);
    assert!(doms[0].contains(0));
    assert!(doms[1].contains(0));
    assert!(doms[1].contains(1));
}

#[test]
fn dominators_branch() {
    let f = func("f", vec![bb(goto(1)), bb(goto(2)), bb(goto(0))]);
    let doms = dominators(&f);
    assert_eq!(doms.len(), 3);
    // block 0 dominates all
    assert!(doms[1].contains(0));
    assert!(doms[2].contains(0));
}

#[test]
fn dominators_diamond() {
    // entry -> a, entry -> b, a -> join, b -> join: neither a nor b dominates join.
    let f = func(
        "f",
        vec![
            bb(TerminatorKind::SwitchInt {
                discr: Operand::Copy(Local(0)),
                targets: vec![(1, BasicBlockId(1))],
                otherwise: BasicBlockId(2),
            }),
            bb(goto(3)),
            bb(goto(3)),
            bb(TerminatorKind::Return),
        ],
    );
    let doms = dominators(&f);
    assert!(doms[3].contains(0));
    assert!(!doms[3].contains(1));
    assert!(!doms[3].contains(2));
}

#[test]
fn find_loops_nested() {
    // outer: 0->1->2->1, 1->3(exit); inner header 1 nested in outer loop.
    let f = func(
        "f",
        vec![
            bb(goto(1)),
            bb(goto(2)),
            bb(TerminatorKind::SwitchInt {
                discr: Operand::Copy(Local(0)),
                targets: vec![(1, BasicBlockId(1))],
                otherwise: BasicBlockId(3),
            }),
            bb(TerminatorKind::Return),
        ],
    );
    let loops = find_loops(&f);
    assert_eq!(loops.len(), 1);
    assert_eq!(loops[0].header, BasicBlockId(1));
    assert!(loops[0].body.contains(1));
    assert!(loops[0].body.contains(2));
}

#[test]
fn find_loops_none() {
    let f = func("f", vec![bb(goto(1)), bb(TerminatorKind::Return)]);
    let loops = find_loops(&f);
    assert!(loops.is_empty());
}

#[test]
fn find_loops_simple_backedge() {
    // block0 -> block1 -> block0 = loop
    let f = func("f", vec![bb(goto(1)), bb(goto(0))]);
    let loops = find_loops(&f);
    assert_eq!(loops.len(), 1);
    assert_eq!(loops[0].header, BasicBlockId(0));
}

#[test]
fn find_loops_empty() {
    let f = func("f", vec![]);
    let loops = find_loops(&f);
    assert!(loops.is_empty());
}

#[test]
fn clone_blocks_duplicates() {
    let f = func("f", vec![bb(goto(1)), bb(TerminatorKind::Return)]);
    let mut f2 = f;
    let mut body = IndexSet::new();
    body.insert(1);
    let map = clone_blocks(&mut f2, &body);
    assert_eq!(f2.basic_blocks.len(), 3); // original 2 + 1 cloned
    // exactly one entry: block 1, mapped to the new block 2
    assert_eq!(map.get(0), None);
    assert_eq!(map.get(1), Some(2));
}

#[test]
fn clone_blocks_remaps_goto() {
    let mut f = func("f", vec![bb(goto(1)), bb(TerminatorKind::Return)]);
    let mut body = IndexSet::new();
    body.insert(0);
    body.insert(1);
    let _map = clone_blocks(&mut f, &body);
    // blocks 0 and 1 cloned, so we have 4 blocks
    assert_eq!(f.basic_blocks.len(), 4);
}

#[test]
fn loop_exits_detected() {
    // block0 -> block1, block1 -> block2 (exit), block1 -> block0 (backedge)
    let f = func(
        "f",
        vec![
            bb(goto(1)),
            bb(TerminatorKind::SwitchInt {
                discr: Operand::Copy(Local(0)),
                targets: vec![(0, BasicBlockId(0))],
                otherwise: BasicBlockId(2),
            }),
            bb(TerminatorKind::Return),
        ],
    );
    let loops = find_loops(&f);
    assert_eq!(loops.len(), 1);
    // the exit should be block 2
    assert!(
        loops[0].exits.contains(&BasicBlockId(2)),
        "loop exit should be block 2"
    );
}

#[test]
fn find_loops_multi_backedge_same_header() {
    // Two distinct latch blocks both jumping back to header 0.
    let f = func(
        "f",
        vec![
            bb(TerminatorKind::SwitchInt {
                discr: Operand::Copy(Local(0)),
                targets: vec![(1, BasicBlockId(1)), (2, BasicBlockId(2))],
                otherwise: BasicBlockId(3),
            }),
            bb(goto(4)),
            bb(goto(4)),
            bb(TerminatorKind::Return),
            bb(TerminatorKind::SwitchInt {
                discr: Operand::Copy(Local(0)),
                targets: vec![(1, BasicBlockId(0))],
                otherwise: BasicBlockId(3),
            }),
        ],
    );
    let loops = find_loops(&f);
    assert_eq!(loops.len(), 1);
    assert_eq!(loops[0].header, BasicBlockId(0));
    assert!(loops[0].body.contains(1));
    assert!(loops[0].body.contains(2));
    assert!(loops[0].body.contains(4));
    assert!(loops[0].exits.contains(&BasicBlockId(3)));
}

// Reference dominator dataflow: the O(n^2) predecessor-intersection fix
// point the production code replaced. Kept only to differentially test
// the CHK implementation on fully-reachable CFGs.
fn succs_of(bb: &BasicBlock) -> Vec<usize> {
    let mut out: Vec<usize> = match &bb.terminator {
        Some(t) => match &t.kind {
            TerminatorKind::Goto { target } => vec![target.0],
            TerminatorKind::SwitchInt {
                targets, otherwise, ..
            } => {
                let mut s: Vec<usize> = targets.iter().map(|(_, b)| b.0).collect();
                s.push(otherwise.0);
                s
            }
            _ => vec![],
        },
        None => vec![],
    };
    out.sort_unstable();
    out.dedup();
    out
}

fn preds_of(func: &MirFunction) -> Vec<Vec<usize>> {
    let n = func.basic_blocks.len();
    let mut preds: Vec<Vec<usize>> = vec![Vec::new(); n];
    for (i, bb) in func.basic_blocks.iter().enumerate() {
        for s in succs_of(bb) {
            if s < n {
                preds[s].push(i);
            }
        }
    }
    preds
}

fn as_set(s: &IndexSet) -> HashSet<usize> {
    s.to_vec().into_iter().collect()
}

fn reference_dominators(func: &MirFunction) -> Vec<HashSet<usize>> {
    let num_blocks = func.basic_blocks.len();
    if num_blocks == 0 {
        return Vec::new();
    }
    let preds_all = preds_of(func);
    let mut dominators = vec![HashSet::new(); num_blocks];
    for i in 0..num_blocks {
        for b in 0..num_blocks {
            dominators[i].insert(b);
        }
    }
    dominators[0] = [0usize].into_iter().collect();
    let mut changed = true;
    while changed {
        changed = false;
        for i in 1..num_blocks {
            let preds = &preds_all[i];
            let new_dom: HashSet<usize> = if preds.is_empty() {
                [i].into_iter().collect()
            } else {
                let mut set = dominators[preds[0]].clone();
                for p in preds.iter().skip(1) {
                    set = set.intersection(&dominators[*p]).cloned().collect();
                }
                set.insert(i);
                set
            };
            if new_dom != dominators[i] {
                dominators[i] = new_dom;
                changed = true;
            }
        }
    }
    dominators
}

fn rand(seed: &mut u64) -> u64 {
    *seed ^= *seed << 13;
    *seed ^= *seed >> 7;
    *seed ^= *seed << 17;
    *seed
}

#[test]
fn differential_dominators_and_loops_random_reachable_cfgs() {
    let mut seed = 0x9E3779B97F4A7C15u64;
    for case in 0..300 {
        let n = 2 + (rand(&mut seed) % 24) as usize;

        // Every block gets a Goto or SwitchInt whose targets all stay in
        // range and are chosen so entry reaches every block.
        let blocks: Vec<BasicBlock> = (0..n)
            .map(|i| {
                let term = if i + 1 == n || rand(&mut seed) % 3 == 0 {
                    TerminatorKind::Return
                } else {
                    // Forward edge to the next block keeps the graph
                    // connected from entry; extra random edges add
                    // cycles, joins, and multi-latch loops.
                    let otherwise = BasicBlockId(i + 1);
                    let extra = rand(&mut seed) as usize % n;
                    if extra == i {
                        goto(i + 1)
                    } else {
                        TerminatorKind::SwitchInt {
                            discr: Operand::Copy(Local(0)),
                            targets: vec![(extra as i64, BasicBlockId(extra))],
                            otherwise,
                        }
                    }
                };
                bb(term)
            })
            .collect();

        // Both algorithms agree only on blocks reachable from entry;
        // skip generated CFGs containing dead regions (covered by the
        // unreachable-block contract tests below).
        let f = func("f", blocks);
        {
            let mut seen = vec![false; n];
            seen[0] = true;
            let mut queue = vec![0usize];
            while let Some(v) = queue.pop() {
                for s in succs_of(&f.basic_blocks[v]) {
                    if !seen[s] {
                        seen[s] = true;
                        queue.push(s);
                    }
                }
            }
            if seen.iter().any(|t| !t) {
                continue;
            }
        }

        let got_doms: Vec<HashSet<usize>> = dominators(&f).iter().map(as_set).collect();
        let want_doms = reference_dominators(&f);
        assert_eq!(
            got_doms, want_doms,
            "case {case}: dominators diverged for {n} blocks"
        );

        let loops = find_loops(&f);
        for lp in &loops {
            assert!(lp.body.contains(lp.header.0));
            for b in lp.body.to_vec() {
                assert!(
                    want_doms[b].contains(&lp.header.0),
                    "case {case}: header {:?} must dominate body block {:?}",
                    lp.header,
                    b
                );
            }
            for l in &lp.latches {
                assert!(lp.body.contains(l.0), "case {case}: latch not in body");
            }
            let body_succ_outside: Vec<BasicBlockId> = lp
                .exits
                .iter()
                .copied()
                .filter(|e| lp.body.contains(e.0))
                .collect();
            assert!(
                body_succ_outside.is_empty(),
                "case {case}: exit list contains a body block"
            );
            for e in &lp.exits {
                assert!(!lp.body.contains(e.0), "case {case}: exit inside body");
            }
        }
    }
}

#[test]
fn unreachable_block_dominated_only_by_itself() {
    // Entry plus a dead self-loop: block 1 is unreachable.
    let f = func("f", vec![bb(TerminatorKind::Return), bb(goto(1))]);
    let doms = dominators(&f);
    assert_eq!(as_set(&doms[0]), [0usize].into_iter().collect());
    assert_eq!(as_set(&doms[1]), [1usize].into_iter().collect());
}

#[test]
fn unreachable_cycle_yields_no_loops() {
    // Reachable 0->1 and an unreachable cycle 2->3->2. The old
    // "all blocks dominate" initialization made find_loops report
    // phantom loops inside dead code; dead blocks now keep only the
    // trivial self-dominator, so no loop can form there.
    let f = func(
        "f",
        vec![
            bb(goto(1)),
            bb(TerminatorKind::Return),
            bb(goto(3)),
            bb(goto(2)),
        ],
    );
    let loops = find_loops(&f);
    assert!(loops.is_empty(), "dead cycle must not produce loops");

    let doms = dominators(&f);
    assert_eq!(as_set(&doms[2]), [2usize].into_iter().collect());
    assert_eq!(as_set(&doms[3]), [3usize].into_iter().collect());
}
