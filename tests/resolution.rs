use customasm::resolver::{
    check_candidate, eval, fits, initial_state, resolve_iteratively, resolve_pass,
    step_instruction, Candidate, CandidateCheck, Eval, Expr, Item, Program, ResolutionState,
    ResolveError,
};

fn sym(i: usize) -> Expr {
    Expr::Symbol(i)
}

fn cand(size_bits: usize, arg: Expr, width: u32, min: Option<i128>, max: Option<i128>) -> Candidate {
    Candidate { size_bits, arg, width, signed: false, min, max }
}

/// `jmp {addr}` with a short form for addresses below 0x100 and a long form
/// for the rest, both three bytes long.
fn jmp(arg: fn() -> Expr) -> Item {
    Item::Instruction {
        candidates: vec![
            cand(24, arg(), 8, None, Some(0x100)),
            cand(24, arg(), 16, Some(0x100), None),
        ],
    }
}

fn forward_jump_program() -> Program {
    Program {
        addr_unit: 8,
        addr_start: 0,
        n_symbols: 1,
        items: vec![jmp(|| sym(0)), Item::Label { symbol: 0 }],
    }
}

#[test]
fn forward_jump_converges() {
    let (st, iters) = resolve_iteratively(&forward_jump_program(), 10).unwrap();
    assert_eq!(iters, 2);
    assert_eq!(st.symbols[0], ResolutionState::Resolved(3));
    assert_eq!(st.chosen[0], Some((0, 3)));
    assert_eq!(st.alive[0], vec![true, false]);
    assert_eq!(st.sizes[0], Some(24));
    assert_eq!(st.addresses, vec![Some(0), Some(3)]);
}

#[test]
fn jump_target_in_neither_range_has_no_match() {
    let p = Program {
        addr_unit: 8,
        addr_start: 0,
        n_symbols: 0,
        items: vec![Item::Instruction {
            candidates: vec![
                cand(24, Expr::Literal(0x150), 8, None, Some(0x100)),
                cand(24, Expr::Literal(0x150), 16, Some(0x200), None),
            ],
        }],
    };
    assert_eq!(resolve_iteratively(&p, 10).err(), Some(ResolveError::NoMatch { item: 0 }));
}

#[test]
fn long_jump_chosen_above_short_range() {
    let p = Program {
        addr_unit: 8,
        addr_start: 0x1000,
        n_symbols: 1,
        items: vec![jmp(|| sym(0)), Item::Label { symbol: 0 }],
    };
    let (st, _) = resolve_iteratively(&p, 10).unwrap();
    assert_eq!(st.chosen[0], Some((1, 0x1003)));
}

#[test]
fn reservation_waits_for_later_constant() {
    let p = Program {
        addr_unit: 8,
        addr_start: 0,
        n_symbols: 2,
        items: vec![
            Item::Res { units: sym(0) },
            Item::Label { symbol: 1 },
            Item::Constant { symbol: 0, value: Expr::Literal(4) },
        ],
    };
    let mut st = initial_state(&p).unwrap();
    assert_eq!(resolve_pass(&p, &mut st), Ok(true));
    assert_eq!(st.sizes[0], None);
    assert_eq!(st.symbols[1], ResolutionState::Unresolved);
    assert_eq!(st.symbols[0], ResolutionState::Resolved(4));
    let (st, iters) = resolve_iteratively(&p, 10).unwrap();
    assert_eq!(iters, 2);
    assert_eq!(st.sizes[0], Some(32));
    assert_eq!(st.symbols[1], ResolutionState::Resolved(4));
}

#[test]
fn two_passing_rules_are_ambiguous() {
    let p = Program {
        addr_unit: 8,
        addr_start: 0,
        n_symbols: 0,
        items: vec![Item::Instruction {
            candidates: vec![
                cand(16, Expr::Literal(5), 8, None, None),
                cand(24, Expr::Literal(5), 16, None, None),
            ],
        }],
    };
    assert_eq!(resolve_iteratively(&p, 10).err(), Some(ResolveError::Ambiguous { item: 0 }));
}

#[test]
fn value_that_does_not_fit_is_pruned() {
    let cands = vec![
        cand(16, Expr::Literal(0x100), 8, None, None),
        cand(24, Expr::Literal(0x100), 16, None, None),
    ];
    let o = step_instruction(0, &cands, &vec![true, true], &vec![]).unwrap();
    assert_eq!(o.alive, vec![false, true]);
    assert!(o.pruned);
    assert_eq!(o.chosen, Some((1, 0x100)));
    assert_eq!(o.size_bits, Some(24));
    assert_eq!(check_candidate(&cands[0], &vec![]), CandidateCheck::Prune);
}

#[test]
fn bit_width_fitting() {
    assert!(fits(255, 8, false));
    assert!(!fits(256, 8, false));
    assert!(!fits(-1, 8, false));
    assert!(fits(-128, 8, true));
    assert!(!fits(128, 8, true));
    assert!(!fits(0, 0, true));
    assert!(fits(i64::MAX as i128, 64, false));
    assert!(fits(i64::MIN as i128, 64, true));
}

#[test]
fn evaluation_defers_and_fails() {
    let syms = vec![ResolutionState::Resolved(7), ResolutionState::Unresolved];
    let e = Expr::Sub(Box::new(sym(0)), Box::new(Expr::Literal(2)));
    assert_eq!(eval(&e, &syms), Eval::Resolved(5));
    let d = Expr::Add(Box::new(sym(0)), Box::new(sym(1)));
    assert_eq!(eval(&d, &syms), Eval::Deferred);
    let f = Expr::Add(Box::new(sym(1)), Box::new(sym(9)));
    assert_eq!(eval(&f, &syms), Eval::Failed);
    let o = Expr::Add(Box::new(Expr::Literal(i128::MAX)), Box::new(Expr::Literal(1)));
    assert_eq!(eval(&o, &syms), Eval::Failed);
}

#[test]
fn resolution_is_deterministic() {
    let (a, n) = resolve_iteratively(&forward_jump_program(), 10).unwrap();
    let (b, m) = resolve_iteratively(&forward_jump_program(), 10).unwrap();
    assert_eq!(n, m);
    assert_eq!(a.symbols, b.symbols);
    assert_eq!(a.chosen, b.chosen);
    assert_eq!(a.addresses, b.addresses);
}

#[test]
fn knowledge_only_grows_across_passes() {
    let p = forward_jump_program();
    let mut st = initial_state(&p).unwrap();
    resolve_pass(&p, &mut st).unwrap();
    let syms1 = st.symbols.clone();
    let sizes1 = st.sizes.clone();
    resolve_pass(&p, &mut st).unwrap();
    assert_eq!(syms1[0], ResolutionState::Resolved(3));
    assert_eq!(st.symbols[0], syms1[0]);
    assert_eq!(st.sizes[0], sizes1[0]);
}

#[test]
fn addresses_follow_sizes() {
    let p = Program {
        addr_unit: 8,
        addr_start: 0,
        n_symbols: 1,
        items: vec![
            Item::Instruction { candidates: vec![cand(16, Expr::Literal(1), 8, None, None)] },
            Item::Instruction { candidates: vec![cand(24, Expr::Literal(1), 8, None, None)] },
            Item::Label { symbol: 0 },
        ],
    };
    let (st, iters) = resolve_iteratively(&p, 10).unwrap();
    assert_eq!(iters, 1);
    assert_eq!(st.addresses, vec![Some(0), Some(2), Some(5)]);
    assert_eq!(st.symbols[0], ResolutionState::Resolved(5));
}

#[test]
fn circular_dependency_is_unresolved() {
    let p = Program {
        addr_unit: 8,
        addr_start: 0,
        n_symbols: 1,
        items: vec![Item::Constant { symbol: 0, value: Expr::Add(Box::new(sym(0)), Box::new(Expr::Literal(1))) }],
    };
    assert_eq!(resolve_iteratively(&p, 10).err(), Some(ResolveError::Unresolved));
}

#[test]
fn iteration_ceiling_is_unresolved() {
    assert_eq!(resolve_iteratively(&forward_jump_program(), 1).err(), Some(ResolveError::Unresolved));
}

#[test]
fn malformed_programs_are_refused() {
    let p = Program { addr_unit: 0, addr_start: 0, n_symbols: 0, items: vec![] };
    assert_eq!(resolve_iteratively(&p, 10).err(), Some(ResolveError::BadUnit));
    let q = Program { addr_unit: 8, addr_start: 0, n_symbols: 0, items: vec![Item::Label { symbol: 0 }] };
    assert_eq!(resolve_iteratively(&q, 10).err(), Some(ResolveError::BadSymbol { item: 0 }));
    let r = Program {
        addr_unit: 8,
        addr_start: 0,
        n_symbols: 0,
        items: vec![Item::Instruction { candidates: vec![cand(8, Expr::Literal(0), 65, None, None)] }],
    };
    assert_eq!(resolve_iteratively(&r, 10).err(), Some(ResolveError::BadWidth { item: 0 }));
    let s = Program { addr_unit: 8, addr_start: 0, n_symbols: 0, items: vec![Item::Res { units: Expr::Literal(-1) }] };
    assert_eq!(resolve_iteratively(&s, 10).err(), Some(ResolveError::BadSize { item: 0 }));
}

#[test]
fn pass_without_progress_leaves_state_alone() {
    let p = Program {
        addr_unit: 8,
        addr_start: 0,
        n_symbols: 1,
        items: vec![Item::Constant { symbol: 0, value: sym(0) }],
    };
    let mut st = initial_state(&p).unwrap();
    assert_eq!(resolve_pass(&p, &mut st), Ok(true));
    assert_eq!(resolve_pass(&p, &mut st), Ok(false));
    assert_eq!(st.symbols[0], ResolutionState::Unresolved);
    assert_eq!(st.addresses, vec![Some(0)]);
}

#[test]
fn symbol_defined_twice_is_refused() {
    let p = Program {
        addr_unit: 8,
        addr_start: 0,
        n_symbols: 1,
        items: vec![
            Item::Label { symbol: 0 },
            Item::Constant { symbol: 0, value: Expr::Literal(1) },
        ],
    };
    assert_eq!(resolve_iteratively(&p, 10).err(), Some(ResolveError::DuplicateSymbol { item: 1 }));
}

#[test]
fn widths_beyond_the_value_range() {
    assert!(!fits(i64::MAX as i128 + 1, 63, false));
    assert!(fits(u64::MAX as i128, 64, false));
    assert!(!fits(u64::MAX as i128 + 1, 64, false));
}
