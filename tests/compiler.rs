use tape_machine_compiler::compile::{compile, Compiled};
use tape_machine_compiler::index::{decode_address, dispatch_address};
use tape_machine_compiler::lower::{
    Op, Terminator, CONTINUATION, ENTRY, FIRST_CASE, LOOP_BODY, LOOP_EXIT, LOOP_HEADER, UNMATCHED_CASE,
};
use tape_machine_compiler::machine::{position_of, Action, CompileError, Condition, Machine, Step, Transition};
use tape_machine_compiler::resolve::find_rule;
use tape_machine_compiler::run::{run, Event};

fn names(v: &[&str]) -> Vec<String> {
    v.iter().map(|s| s.to_string()).collect()
}

fn transition(source: &str, condition: Condition, steps: Vec<Step>, target: &str) -> Transition {
    Transition { source: source.to_string(), condition, steps, target: target.to_string() }
}

fn explicit(v: &[&str]) -> Condition {
    Condition::Explicit(names(v))
}

fn scenario_a() -> Machine {
    Machine {
        symbols: names(&["a", "b"]),
        states: names(&["q0", "q1"]),
        transitions: vec![
            transition("q0", explicit(&["a"]), vec![Step::MoveRight, Step::Write("b".to_string())], "q1"),
            transition("q0", Condition::Remainder, vec![Step::MoveLeft], "q0"),
        ],
    }
}

fn compiled(m: &Machine) -> Compiled {
    match compile(m) {
        Ok(c) => c,
        Err(e) => panic!("compile failed: {:?}", e),
    }
}

fn outcome(c: &Compiled, state: usize, symbol: usize) -> Option<usize> {
    c.table.entries[dispatch_address(symbol, state, c.table.n_states, c.table.n_symbols)]
}

#[test]
fn scenario_a_resolution() {
    let c = compiled(&scenario_a());
    let explicit_rule = outcome(&c, 0, 0).expect("(q0, a) is matched");
    assert_eq!(explicit_rule, 0);
    let r = &c.machine.rules[explicit_rule];
    assert_eq!(r.target, 1);
    assert_eq!(c.graph.blocks[FIRST_CASE].ops, vec![Op::MoveRight, Op::Write(1), Op::SetState(1)]);
    let remainder_rule = outcome(&c, 0, 1).expect("(q0, b) is matched");
    assert_eq!(remainder_rule, 1);
    assert_eq!(c.machine.rules[remainder_rule].target, 0);
    assert_eq!(outcome(&c, 1, 0), None);
    assert_eq!(outcome(&c, 1, 1), None);
}

#[test]
fn scenario_b_run() {
    let c = compiled(&scenario_a());
    let (regs, events) = run(&c.graph, 2, 4);
    assert_eq!(events, vec![Event::Unmatched { state: 1, symbol: 1 }, Event::Done]);
    assert_eq!(regs.tape, vec![0, 1, 0, 0]);
    assert_eq!(regs.cursor, 1);
    assert_eq!(regs.state, 1);
    assert_eq!(regs.step, 2);
}

#[test]
fn ambiguous_explicit_conditions_are_rejected() {
    let mut m = scenario_a();
    m.transitions.push(transition("q0", explicit(&["b", "a"]), vec![], "q0"));
    assert!(matches!(compile(&m), Err(CompileError::Ambiguous { state: 0, symbol: 0 })));
}

#[test]
fn overlap_on_different_states_is_accepted() {
    let mut m = scenario_a();
    m.transitions.push(transition("q1", explicit(&["a"]), vec![], "q0"));
    let c = compiled(&m);
    assert_eq!(outcome(&c, 1, 0), Some(2));
    assert_eq!(outcome(&c, 1, 1), None);
}

#[test]
fn two_remainders_are_rejected() {
    let mut m = scenario_a();
    m.transitions.push(transition("q0", Condition::Remainder, vec![], "q1"));
    assert!(matches!(compile(&m), Err(CompileError::MultipleRemainder { state: 0 })));
}

#[test]
fn undeclared_names_are_rejected() {
    let mut m = scenario_a();
    m.transitions.push(transition("q7", Condition::Remainder, vec![], "q1"));
    assert_eq!(compile(&m).err(), Some(CompileError::UndeclaredState("q7".to_string())));

    let mut m = scenario_a();
    m.transitions.push(transition("q1", Condition::Remainder, vec![], "q9"));
    assert_eq!(compile(&m).err(), Some(CompileError::UndeclaredState("q9".to_string())));

    let mut m = scenario_a();
    m.transitions.push(transition("q1", explicit(&["a", "z"]), vec![], "q1"));
    assert_eq!(compile(&m).err(), Some(CompileError::UndeclaredSymbol("z".to_string())));

    let mut m = scenario_a();
    m.transitions.push(transition("q1", Condition::Remainder, vec![Step::Write("w".to_string())], "q1"));
    assert_eq!(compile(&m).err(), Some(CompileError::UndeclaredSymbol("w".to_string())));
}

#[test]
fn explicit_wins_over_an_earlier_remainder() {
    let m = Machine {
        symbols: names(&["x", "y", "z"]),
        states: names(&["s"]),
        transitions: vec![
            transition("s", Condition::Remainder, vec![Step::NoOp], "s"),
            transition("s", explicit(&["y"]), vec![Step::MoveRight], "s"),
        ],
    };
    let c = compiled(&m);
    assert_eq!(outcome(&c, 0, 0), Some(0));
    assert_eq!(outcome(&c, 0, 1), Some(1));
    assert_eq!(outcome(&c, 0, 2), Some(0));
}

#[test]
fn every_pair_has_one_entry() {
    let c = compiled(&scenario_a());
    assert_eq!(c.table.entries.len(), 4);
    for state in 0..2 {
        for symbol in 0..2 {
            assert_eq!(outcome(&c, state, symbol), find_rule(&c.machine, state, symbol));
        }
    }
}

#[test]
fn address_round_trip() {
    assert_eq!(dispatch_address(4, 5, 6, 5), 29);
    assert_eq!(decode_address(29, 6, 5), (4, 5));
    assert_eq!(dispatch_address(1, 0, 2, 2), 2);
    for address in 0..30 {
        let (symbol, state) = decode_address(address, 6, 5);
        assert_eq!(dispatch_address(symbol, state, 6, 5), address);
    }
}

#[test]
fn graph_topology() {
    let c = compiled(&scenario_a());
    let g = &c.graph;
    assert_eq!(g.blocks.len(), FIRST_CASE + 2);
    assert!(matches!(g.blocks[ENTRY].terminator, Terminator::Jump(LOOP_HEADER)));
    assert!(matches!(
        g.blocks[LOOP_HEADER].terminator,
        Terminator::BranchIfStepsLeft { then_block: LOOP_BODY, else_block: LOOP_EXIT }
    ));
    match &g.blocks[LOOP_BODY].terminator {
        Terminator::Switch { cases, default } => {
            assert_eq!(*default, UNMATCHED_CASE);
            assert_eq!(cases, &vec![(0, FIRST_CASE), (2, FIRST_CASE + 1)]);
        }
        _ => panic!("the loop body ends in a multiway branch"),
    }
    for b in [UNMATCHED_CASE, FIRST_CASE, FIRST_CASE + 1] {
        assert!(matches!(g.blocks[b].terminator, Terminator::Jump(CONTINUATION)));
    }
    assert!(matches!(g.blocks[CONTINUATION].terminator, Terminator::Jump(LOOP_HEADER)));
    assert!(matches!(g.blocks[LOOP_EXIT].terminator, Terminator::Return));
    assert_eq!(g.blocks[CONTINUATION].ops, vec![Op::IncrementStep, Op::RereadSymbol]);
}

#[test]
fn cursor_is_clamped_to_the_tape() {
    let m = Machine {
        symbols: names(&["0", "1"]),
        states: names(&["go"]),
        transitions: vec![transition("go", Condition::Remainder, vec![Step::MoveLeft, Step::Write("1".to_string())], "go")],
    };
    let c = compiled(&m);
    let (regs, events) = run(&c.graph, 3, 2);
    assert_eq!(regs.cursor, 0);
    assert_eq!(regs.tape, vec![1, 0]);
    assert_eq!(events, vec![Event::Done]);

    let m = Machine {
        symbols: names(&["0", "1"]),
        states: names(&["go"]),
        transitions: vec![transition("go", Condition::Remainder, vec![Step::MoveRight, Step::Write("1".to_string())], "go")],
    };
    let c = compiled(&m);
    let (regs, _) = run(&c.graph, 5, 3);
    assert_eq!(regs.cursor, 2);
    assert_eq!(regs.tape, vec![0, 1, 1]);
    assert_eq!(regs.symbol, 1);
}

#[test]
fn zero_budget_only_reports_done() {
    let c = compiled(&scenario_a());
    let (regs, events) = run(&c.graph, 0, 4);
    assert_eq!(events, vec![Event::Done]);
    assert_eq!(regs.tape, vec![0, 0, 0, 0]);
    assert_eq!(regs.step, 0);
}

#[test]
fn unmatched_pairs_are_logged_each_step() {
    let m = Machine { symbols: names(&["a"]), states: names(&["only"]), transitions: vec![] };
    let c = compiled(&m);
    assert_eq!(c.graph.blocks.len(), FIRST_CASE);
    let (_, events) = run(&c.graph, 3, 1);
    let u = Event::Unmatched { state: 0, symbol: 0 };
    assert_eq!(events, vec![u, u, u, Event::Done]);
}

#[test]
fn names_resolve_to_their_first_position() {
    let v = names(&["p", "q", "p"]);
    assert_eq!(position_of(&v, &"p".to_string()), Some(0));
    assert_eq!(position_of(&v, &"q".to_string()), Some(1));
    assert_eq!(position_of(&v, &"r".to_string()), None);
}

fn step_by_table(c: &Compiled, budget: usize, capacity: usize) -> (Vec<usize>, usize, usize, Vec<Event>) {
    let (mut tape, mut cursor, mut state, mut symbol) = (vec![0usize; capacity], 0usize, 0usize, 0usize);
    let mut events = Vec::new();
    for _ in 0..budget {
        match outcome(c, state, symbol) {
            Some(i) => {
                let rule = &c.machine.rules[i];
                for a in rule.actions.iter() {
                    match *a {
                        Action::MoveLeft => cursor = cursor.saturating_sub(1),
                        Action::MoveRight => {
                            if cursor + 1 < tape.len() {
                                cursor += 1
                            }
                        }
                        Action::Write(s) => tape[cursor] = s,
                        Action::NoOp => {}
                    }
                }
                state = rule.target;
            }
            None => events.push(Event::Unmatched { state, symbol }),
        }
        symbol = tape[cursor];
    }
    events.push(Event::Done);
    (tape, cursor, state, events)
}

#[test]
fn graph_run_matches_table_stepping() {
    let m = Machine {
        symbols: names(&["_", "1", "x"]),
        states: names(&["scan", "back", "halt"]),
        transitions: vec![
            transition("scan", explicit(&["1"]), vec![Step::Write("x".to_string()), Step::MoveRight], "scan"),
            transition("scan", explicit(&["_"]), vec![Step::Write("1".to_string()), Step::MoveLeft], "back"),
            transition("back", explicit(&["x"]), vec![Step::Write("1".to_string()), Step::MoveLeft], "back"),
            transition("back", Condition::Remainder, vec![Step::MoveRight], "halt"),
        ],
    };
    let c = compiled(&m);
    for (budget, capacity) in [(0, 3), (1, 3), (4, 3), (9, 5), (20, 6)] {
        let (regs, events) = run(&c.graph, budget, capacity);
        let (tape, cursor, state, expected) = step_by_table(&c, budget, capacity);
        assert_eq!(regs.tape, tape);
        assert_eq!(regs.cursor, cursor);
        assert_eq!(regs.state, state);
        assert_eq!(events, expected);
        assert_eq!(regs.step, budget);
    }
}
