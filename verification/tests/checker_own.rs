use pulse::abductive::AbductiveDomain;
use pulse::abstract_value::{AbstractValue, FreshCounters};
use pulse::access::Access;
use pulse::checker::apply_run::{ApplyNext, ApplyRun, SummaryFacts};
use pulse::checker::call_run::{CallAnswer, CallEnd, CallNext, CallPhase, CallQuestion, CallRun};
use pulse::checker::calls::{
    abort_results, formal_pointee, global_initializer_before,
    merge_return_history_from_equal_actuals, pointed_to_struct, pure_call_fits,
    record_pure_call, redirects_to, root_global_pvar, summary_action, unknown_arguments,
    values_are_equal_in_state, write_unknown_result, CalleeFacts, SummaryAction,
};
use pulse::checker::disjuncts::{
    dead_logical_vars, handed_on, has_continue_program, has_normal_path, needs_shrinking,
    plan_node, retained_post, return_candidate_logical_stamp, splice_results, stopped_post,
    Budget, Disjuncts, NodePlan, Usage,
};
use pulse::checker::issues::{diagnostic_dedup_key, to_issue_log, IssueReportContext, LatentEntry};
use pulse::checker::procedure::{scan_procedure, NodeStates};
use pulse::checker::scan::{
    diagnostic_originates_in_proc, exit_disjuncts, stopped_summary_key, NonExitScan, PrePostKind,
    ScanAnswer,
};
use pulse::checker::specialize::{
    canonicalize_alias_groups, effective_diagnostic, merge_alias_groups, root_formal_position,
    specialization_with_aliases, HeapPath, PulseSpecialization,
};
use pulse::checker::stats::{
    exec_domain_kind, format_long_duration, node_instrs_summary, DisjunctiveStateStats,
    ProcProgress,
};
use pulse::diagnostic::Diagnostic;
use pulse::execution_domain::ExecutionDomain;
use pulse::formula::atom::Atom;
use pulse::formula::lin_arith::LinArith;
use pulse::formula::term::Term;
use pulse::invalidation::Invalidation;
use pulse::sil::{
    CallFlags, Exp, Fieldname, Ident, IdentName, Instr, Location, Mangled, Node, Procdesc,
    Procname, Pvar, PvarKind, QualifiedCppName, SourceFile, Typ, TypeName, Var,
};
use pulse::value_history::{ValueHistory, ValueWithHistory};

fn v(n: i64) -> AbstractValue {
    AbstractValue::of_raw(n)
}

fn at(line: i32) -> Location {
    Location {
        file: SourceFile::new("a.c"),
        line,
        col: 1,
        macro_file_opt: None,
        macro_line: -1,
    }
}

fn proc_f() -> Procdesc {
    let mut pdesc = Procdesc::new(Procname::c_from_string("f"), Typ::void(), at(1));
    pdesc.nodes = vec![Node { id: 0, loc: at(2), instrs: vec![] }];
    pdesc
}

fn fresh_state() -> AbductiveDomain {
    let mut counters = FreshCounters::new();
    AbductiveDomain::mk_initial(&proc_f(), &mut counters)
}

fn freed_at(line: i32) -> Diagnostic {
    freed_then_used(1, line)
}

fn freed_then_used(freed: i32, used: i32) -> Diagnostic {
    Diagnostic::AccessToInvalidAddress {
        addr: v(1),
        invalidation: Invalidation::CFree,
        access_location: at(used),
        trace_access_location: None,
        access_history: ValueHistory::epoch(),
        invalidation_history: ValueHistory::invalidated(Invalidation::CFree, at(freed)),
    }
}

fn abort_at(line: i32) -> ExecutionDomain {
    ExecutionDomain::AbortProgram {
        state: Box::new(fresh_state()),
        diagnostic: Box::new(freed_at(line)),
    }
}

fn local(name: &str) -> Pvar {
    Pvar::mk(Mangled::from_string(name), Procname::c_from_string("f"))
}

#[test]
fn a_spent_budget_stops_every_node() {
    let states = vec![ExecutionDomain::ContinueProgram(fresh_state())];
    let budget = Budget { max_heap_mb: Some(1), max_wall_secs: Some(10) };
    let low = Usage { start_peak_rss_bytes: 5, peak_rss_bytes: Some(1_048_581), elapsed_secs: 10 };
    assert!(matches!(plan_node(false, budget, low, true, &states, None), NodePlan::Run(_)));
    let high = Usage { peak_rss_bytes: Some(1_048_582), ..low };
    assert_eq!(plan_node(false, budget, high, true, &states, None), NodePlan::Stop);
    let late = Usage { elapsed_secs: 11, ..low };
    assert_eq!(plan_node(false, budget, late, true, &states, None), NodePlan::Stop);
    assert_eq!(plan_node(true, budget, low, true, &states, None), NodePlan::Stop);
    assert_eq!(plan_node(false, budget, low, false, &states, None), NodePlan::Unknown);
    let unlimited = Budget { max_heap_mb: Some(0), max_wall_secs: Some(0) };
    assert!(!unlimited.heap_exceeded(high));
    assert!(!unlimited.time_exceeded(late));
}

#[test]
fn stopped_states_are_joined_without_running() {
    let states = vec![abort_at(3)];
    let budget = Budget { max_heap_mb: None, max_wall_secs: None };
    let usage = Usage { start_peak_rss_bytes: 0, peak_rss_bytes: None, elapsed_secs: 0 };
    let plan = plan_node(false, budget, usage, true, &states, None);
    assert!(matches!(plan, NodePlan::Join(s) if s.len() == 1));
    let mixed = vec![abort_at(3), ExecutionDomain::ContinueProgram(fresh_state())];
    let plan = plan_node(false, budget, usage, true, &mixed, Some(&states));
    assert!(matches!(plan, NodePlan::Run(s) if s.len() == 1));
    assert!(has_continue_program(&mixed));
    assert!(!has_continue_program(&states));
    assert!(!has_normal_path(&states));
    assert!(!needs_shrinking(&mixed));
}

#[test]
fn results_take_the_place_of_the_states_that_went_on() {
    let go = ExecutionDomain::ContinueProgram(fresh_state());
    let exit = ExecutionDomain::ExitProgram(fresh_state());
    let states = vec![go.clone(), abort_at(3), go.clone()];
    let results = vec![vec![], vec![exit.clone(), go.clone()]];
    let spliced = splice_results(&states, &results);
    assert_eq!(spliced.len(), 3);
    assert_eq!(exec_domain_kind(&spliced[0]), "abort");
    assert_eq!(exec_domain_kind(&spliced[1]), "exit");
    assert_eq!(exec_domain_kind(&spliced[2]), "continue");
}

#[test]
fn dead_identifiers_are_dropped_but_for_the_returned_one() {
    let mut state = fresh_state();
    let ids: Vec<Ident> =
        (0..3).map(|i| Ident::create_normal(IdentName::from_string("n"), i)).collect();
    for id in &ids {
        state.post.stack.add(Var::LogicalVar(id.clone()), v(10));
    }
    state.post.stack.add(Var::ProgramVar(Box::new(local("p"))), v(11));
    let live = vec![ids[0].clone()];
    let dead = dead_logical_vars(&state.post.stack, &live, Some(2));
    assert_eq!(dead, vec![Var::LogicalVar(ids[1].clone())]);
    let all = dead_logical_vars(&state.post.stack, &live, None);
    assert_eq!(all.len(), 2);
    assert_eq!(return_candidate_logical_stamp(&proc_f()), None);
}

#[test]
fn an_error_belongs_to_the_procedure_whose_lines_hold_it() {
    let pdesc = proc_f();
    assert!(diagnostic_originates_in_proc(&pdesc, &freed_at(2)));
    assert!(!diagnostic_originates_in_proc(&pdesc, &freed_at(40)));
}

#[test]
fn certain_errors_are_published_once() {
    let pdesc = proc_f();
    let mut scan = NonExitScan::new();
    let certain = ScanAnswer::Abort { kind: PrePostKind::AbortProgram, publish: true };
    scan.scan_state(&pdesc, true, &abort_at(2), &certain);
    scan.scan_state(&pdesc, true, &abort_at(2), &certain);
    assert_eq!(scan.diagnostics.len(), 1);
    assert!(scan.recovered.is_empty());
    let latent = ScanAnswer::Abort { kind: PrePostKind::LatentAbortProgram, publish: false };
    let nothing = ScanAnswer::Nothing;
    let states = vec![abort_at(2), ExecutionDomain::ContinueProgram(fresh_state())];
    scan.scan_node(&pdesc, true, &states, &vec![latent, nothing]);
    assert_eq!(scan.recovered.len(), 1);
    assert_eq!(exec_domain_kind(&scan.recovered[0]), "latent-abort");
    let exits = vec![
        ExecutionDomain::ExceptionRaised(fresh_state()),
        ExecutionDomain::ContinueProgram(fresh_state()),
    ];
    let all = exit_disjuncts(&exits, &scan.recovered);
    assert_eq!(all.len(), 2);
    assert_eq!(exec_domain_kind(&all[0]), "continue");
    assert_eq!(exec_domain_kind(&all[1]), "latent-abort");
    assert!(stopped_summary_key(&all[0]).is_none());
    assert!(stopped_summary_key(&all[1]).is_some());
}

#[test]
fn alias_groups_have_one_canonical_form() {
    let a = HeapPath::Pvar(local("a"));
    let b = HeapPath::Dereference(Box::new(HeapPath::Pvar(local("b"))));
    let next = Fieldname::make(TypeName::CStruct(QualifiedCppName::from_string("N")), "next");
    let c = HeapPath::FieldAccess(next, Box::new(HeapPath::Pvar(local("c"))));
    assert_eq!(b.to_string(), "*(b)");
    assert_eq!(c.to_string(), "c.next");
    let groups = vec![
        vec![c.clone(), a.clone()],
        vec![a.clone(), a.clone()],
        vec![a.clone(), c.clone(), a.clone()],
        vec![b.clone(), a.clone()],
    ];
    let canonical = canonicalize_alias_groups(&groups);
    assert_eq!(
        canonical,
        vec![vec![b.clone(), a.clone()], vec![a.clone(), c.clone()]]
    );
    assert_eq!(canonicalize_alias_groups(&canonical), canonical);
    let mut merged = canonical.clone();
    merge_alias_groups(&mut merged, &groups);
    assert_eq!(merged, canonical);
    let formals = vec![local("a"), local("b")];
    assert_eq!(root_formal_position(&formals, &b), Some(1));
    assert_eq!(root_formal_position(&formals, &c), None);
}

#[test]
fn a_latent_error_takes_the_diagnostic_that_was_kept() {
    let own = freed_at(2);
    let kept = freed_at(3);
    let latent = PrePostKind::LatentAbortProgram;
    assert_eq!(effective_diagnostic(latent, None, Some(&kept)), Some(&kept));
    assert_eq!(effective_diagnostic(latent, Some(&own), Some(&kept)), Some(&own));
    assert_eq!(effective_diagnostic(PrePostKind::AbortProgram, None, Some(&kept)), None);
}

#[test]
fn invalid_accesses_are_reported_by_their_state() {
    let entry = LatentEntry {
        kind: PrePostKind::LatentInvalidAccess,
        diagnostic: Some(freed_at(2)),
        from_state: Some(freed_at(3)),
        from_export: Some(freed_at(4)),
        reportable: true,
        report_key: Some("k".to_string()),
    };
    let again = LatentEntry {
        kind: PrePostKind::LatentInvalidAccess,
        diagnostic: None,
        from_state: Some(freed_at(5)),
        from_export: Some(freed_then_used(5, 6)),
        reportable: true,
        report_key: Some("k".to_string()),
    };
    let hidden = LatentEntry {
        kind: PrePostKind::LatentInvalidAccess,
        diagnostic: None,
        from_state: Some(freed_at(7)),
        from_export: None,
        reportable: false,
        report_key: None,
    };
    let ctx = IssueReportContext {
        proc_name: "f".to_string(),
        procedure_start_line: Some(1),
        report_suppressed: false,
    };
    let entries = vec![entry, again, hidden];
    let found = to_issue_log(&vec![freed_at(2)], &entries, &ctx, true);
    let lines: Vec<u32> = found.iter().map(|i| i.line).collect();
    assert_eq!(lines, vec![2, 3]);
    let found = to_issue_log(&vec![], &entries, &ctx, false);
    let lines: Vec<u32> = found.iter().map(|i| i.line).collect();
    assert_eq!(lines, vec![2, 6]);
    assert!(diagnostic_dedup_key(&freed_at(2), true).starts_with("true|USE_AFTER_FREE|a.c:1:1"));
    assert!(diagnostic_dedup_key(&freed_at(2), false).starts_with("false|"));
}

#[test]
fn a_read_of_a_global_runs_its_initializer_first() {
    let init = Procname::c_from_string("__init_g");
    let global = Pvar {
        name: Mangled::from_string("g"),
        kind: PvarKind::Global { initializer: Some(init.clone()) },
    };
    let caller = Procname::c_from_string("f");
    let mut state = fresh_state();
    let exp = Exp::Cast(Typ::void(), Box::new(Exp::Lvar(global.clone())));
    assert_eq!(root_global_pvar(&exp), Some(&global));
    assert_eq!(root_global_pvar(&Exp::Lvar(local("p"))), None);
    let load = Instr::Load {
        id: Ident::create_none(),
        e: exp,
        typ: Typ::void(),
        loc: at(2),
    };
    assert_eq!(global_initializer_before(&state, &load, &caller), Some(&init));
    assert_eq!(global_initializer_before(&state, &load, &init), None);
    state.post.stack.add(Var::ProgramVar(Box::new(global)), v(20));
    assert_eq!(global_initializer_before(&state, &load, &caller), Some(&init));
    state.write_heap(v(20), Access::Dereference, v(21));
    assert_eq!(global_initializer_before(&state, &load, &caller), None);

    let mut run = CallRun {
        caller,
        callee: None,
        is_virtual: false,
        has_arguments: false,
        needs_type: false,
        phase: CallPhase::Finished,
    };
    assert!(matches!(
        run.start(Some(init)),
        CallNext::Ask(CallQuestion::Initializer(_))
    ));
    assert!(matches!(
        run.answer(CallAnswer::Initialized(0)),
        CallNext::Do(CallEnd::Transfer)
    ));
}

#[test]
fn a_call_through_an_invalid_pointer_ends_in_its_errors() {
    let state = fresh_state();
    let results = abort_results(&state, &vec![freed_at(2), freed_at(3)]);
    assert_eq!(results.len(), 2);
    assert_eq!(results[1].get_diagnostic(), Some(&freed_at(3)));
    let mut run = CallRun {
        caller: Procname::c_from_string("f"),
        callee: Some(Procname::c_from_string("__call_c_function_ptr")),
        is_virtual: false,
        has_arguments: true,
        needs_type: false,
        phase: CallPhase::Finished,
    };
    run.start(None);
    run.answer(CallAnswer::Pointee(None));
    assert!(matches!(
        run.answer(CallAnswer::Dereferenced(false)),
        CallNext::Do(CallEnd::Abort)
    ));
    assert!(!run.needs_type);
}

#[test]
fn a_call_of_a_pointer_without_arguments_gives_a_fresh_result() {
    let mut run = CallRun {
        caller: Procname::c_from_string("f"),
        callee: Some(Procname::c_from_string("__call_c_function_ptr")),
        is_virtual: true,
        has_arguments: false,
        needs_type: false,
        phase: CallPhase::Finished,
    };
    assert!(matches!(run.start(None), CallNext::Do(CallEnd::FreshResult)));
    let nothing = CalleeFacts { has_model: false, has_summary: false };
    let f = Procname::c_from_string("f");
    assert!(redirects_to(&f, &f, nothing));
    assert!(!redirects_to(&f, &Procname::c_from_string("g"), nothing));
}

#[test]
fn only_pointers_are_unknown_after_a_call_of_a_stub() {
    let formals = vec![Typ::void(), Typ::mk_ptr(Typ::void())];
    assert_eq!(unknown_arguments(&formals, 3), vec![false, true, false]);
    assert_eq!(unknown_arguments(&vec![], 1), vec![false]);
}

#[test]
fn a_known_callee_is_dealt_with_by_its_summary() {
    let c = Procname::c_from_string("c");
    assert_eq!(summary_action(&c, true, true, 3), SummaryAction::Exit);
    assert_eq!(summary_action(&c, false, true, 3), SummaryAction::HavocPointers);
    assert_eq!(summary_action(&c, false, false, 3), SummaryAction::Apply);
    let node = TypeName::CStruct(QualifiedCppName::from_string("N"));
    let ptr = Typ::mk_ptr(Typ::mk_struct(node.clone()));
    assert_eq!(pointed_to_struct(&ptr), Some(&node));
    assert_eq!(pointed_to_struct(&Typ::void()), None);
}

#[test]
fn the_history_of_a_result_includes_those_of_equal_actuals() {
    let mut counters = FreshCounters::new();
    let mut state = AbductiveDomain::mk_initial(&proc_f(), &mut counters);
    let ret = Ident::create_normal(IdentName::from_string("ret"), 0);
    let value = write_unknown_result(&mut state, &ret, &Typ::mk_int(), &mut counters);
    assert!(state.and_equal(value, v(90)).is_sat());
    assert!(values_are_equal_in_state(&state, value, v(90)));
    assert!(!values_are_equal_in_state(&state, value, v(91)));
    let actuals = vec![
        ValueWithHistory::new(v(90), ValueHistory::assignment(at(3))),
        ValueWithHistory::new(v(91), ValueHistory::assignment(at(4))),
    ];
    let results = vec![ExecutionDomain::ContinueProgram(state)];
    let merged = merge_return_history_from_equal_actuals(&results, &ret, &actuals);
    let after = merged[0].get_astate();
    let found = after.post.stack.find_with_history(&Var::LogicalVar(ret)).unwrap();
    assert!(found.history.signature().contains("assign@a.c:3:1"));
    assert!(!found.history.signature().contains("assign@a.c:4:1"));
}

#[test]
fn states_are_counted_by_kind() {
    let states = vec![
        ExecutionDomain::ContinueProgram(fresh_state()),
        abort_at(2),
        ExecutionDomain::ExitProgram(fresh_state()),
        ExecutionDomain::ExceptionRaised(fresh_state()),
    ];
    let mut stats = DisjunctiveStateStats::from_domain(&states);
    assert_eq!(stats.to_string(), "disj=4 kinds[c=1 x=1 a=1 la=0 li=0 exn=1]");
    stats.add_assign(DisjunctiveStateStats::from_domain(&vec![abort_at(2)]));
    assert_eq!(stats.disjuncts, 5);
    assert_eq!(stats.abort_count, 2);
}

#[test]
fn the_hottest_node_is_the_most_visited() {
    let mut progress = ProcProgress::new();
    assert_eq!(progress.note_step(4, 2), 1);
    assert_eq!(progress.note_step(5, 7), 1);
    assert_eq!(progress.hottest_node, Some((4, 1)));
    assert_eq!(progress.note_step(5, 1), 2);
    assert_eq!(progress.hottest_node, Some((5, 2)));
    assert_eq!(progress.max_disjuncts, 7);
    assert_eq!(progress.exec_steps, 3);
}

#[test]
fn long_durations_and_instructions_are_shown() {
    assert_eq!(format_long_duration(59), None);
    assert_eq!(format_long_duration(60), Some("1m00s".to_string()));
    assert_eq!(format_long_duration(125), Some("2m05s".to_string()));
    assert_eq!(format_long_duration(3725), Some("1h02m05s".to_string()));
    let texts: Vec<String> = ["a", "b", "c", "d", "e"].iter().map(|s| s.to_string()).collect();
    assert_eq!(node_instrs_summary(&texts), "a | b | c | ...(+2 more)");
    assert_eq!(node_instrs_summary(&vec!["a".to_string()]), "a");
    assert_eq!(node_instrs_summary(&vec![]), "<empty>");
}

#[test]
fn a_virtual_call_is_redirected_to_what_can_be_called() {
    let flags = CallFlags { cf_virtual: true };
    assert!(flags.cf_virtual);
    let callee = Procname::c_from_string("base");
    let mut run = CallRun {
        caller: Procname::c_from_string("f"),
        callee: Some(callee),
        is_virtual: flags.cf_virtual,
        has_arguments: true,
        needs_type: false,
        phase: CallPhase::Finished,
    };
    run.start(None);
    run.answer(CallAnswer::DynamicType(None));
    assert!(run.needs_type);
    let facts = CalleeFacts { has_model: false, has_summary: true };
    assert!(matches!(
        run.answer(CallAnswer::Facts(facts)),
        CallNext::Do(CallEnd::ApplySummary(_))
    ));
}

#[test]
fn a_summary_holds_the_paths_of_the_exit_and_those_that_stopped() {
    let pdesc = proc_f();
    let exit = pdesc.exit_node;
    let certain = || ScanAnswer::Abort { kind: PrePostKind::AbortProgram, publish: true };
    let nodes = vec![
        NodeStates {
            node: exit + 1,
            states: vec![abort_at(2), ExecutionDomain::ContinueProgram(fresh_state())],
            answers: vec![certain(), ScanAnswer::Nothing],
            had_dropped_disjuncts: true,
        },
        NodeStates {
            node: exit + 2,
            states: vec![abort_at(2)],
            answers: vec![certain()],
            had_dropped_disjuncts: false,
        },
        NodeStates {
            node: exit,
            states: vec![
                ExecutionDomain::ContinueProgram(fresh_state()),
                ExecutionDomain::ExceptionRaised(fresh_state()),
            ],
            answers: vec![ScanAnswer::Nothing, ScanAnswer::Nothing],
            had_dropped_disjuncts: false,
        },
    ];
    let scan = scan_procedure(&pdesc, &nodes);
    assert_eq!(scan.diagnostics.len(), 1);
    assert_eq!(scan.disjuncts.len(), 1);
    assert_eq!(exec_domain_kind(&scan.disjuncts[0]), "continue");
    assert!(scan.has_dropped_disjuncts);
    let unreached = scan_procedure(&pdesc, &vec![]);
    assert!(unreached.diagnostics.is_empty());
    assert!(unreached.disjuncts.is_empty());
    assert!(!unreached.has_dropped_disjuncts);
}

#[test]
fn a_summary_is_applied_until_its_aliases_are_known() {
    let place = |name: &str| HeapPath::Pvar(local(name));
    let groups = vec![vec![place("p"), place("q")]];
    let one = SummaryFacts { paths: 1, has_dropped_disjuncts: false };
    let kinds = vec![PrePostKind::LatentInvalidAccess];
    let (mut run, next) = ApplyRun::start(PulseSpecialization::bottom(), one);
    assert_eq!(next, ApplyNext::Apply);
    let ApplyNext::LookUp(spec) = run.applied(&kinds, &vec![], &groups) else {
        panic!("aliases call for a specialized summary");
    };
    assert_eq!(spec.aliases.as_ref().unwrap().len(), 1);
    assert_eq!(run.looked_up(spec.clone(), Some(one)), ApplyNext::Apply);
    assert_eq!(run.current, spec);
    assert_eq!(run.applied(&kinds, &vec![], &groups), ApplyNext::Nothing { incomplete: false });
    assert_eq!(
        run.applied(&kinds, &vec![abort_at(2)], &vec![]),
        ApplyNext::Keep { incomplete: true },
    );

    let (mut other, _) = ApplyRun::start(
        PulseSpecialization::bottom(),
        SummaryFacts { paths: 1, has_dropped_disjuncts: true },
    );
    let ApplyNext::LookUp(spec) = other.applied(&kinds, &vec![], &groups) else {
        panic!("aliases call for a specialized summary");
    };
    assert_eq!(
        other.looked_up(spec.clone(), None),
        ApplyNext::Request { specialization: spec, incomplete: true },
    );
    let none = SummaryFacts { paths: 0, has_dropped_disjuncts: false };
    let (_, empty) = ApplyRun::start(PulseSpecialization::bottom(), none);
    assert_eq!(empty, ApplyNext::Nothing { incomplete: true });
}

#[test]
fn a_bug_is_known_by_where_the_address_became_invalid() {
    assert_eq!(freed_then_used(4, 9).dedup_key(), freed_then_used(4, 12).dedup_key());
    assert_ne!(freed_then_used(4, 9).dedup_key(), freed_then_used(5, 9).dedup_key());
}

#[test]
fn specializations_tell_kinds_of_places_apart() {
    let global = Pvar {
        name: Mangled::from_string("p"),
        kind: PvarKind::Global { initializer: None },
    };
    let of = |place: Pvar| {
        specialization_with_aliases(
            &PulseSpecialization::bottom(),
            &vec![vec![HeapPath::Pvar(place), HeapPath::Pvar(local("q"))]],
        )
    };
    assert!(of(local("p")).same(&of(local("p"))));
    assert!(!of(local("p")).same(&of(global)));
    assert!(!of(local("p")).same(&PulseSpecialization::bottom()));
    let field_of = |class: &str| {
        let f = Fieldname::make(TypeName::CStruct(QualifiedCppName::from_string(class)), "next");
        specialization_with_aliases(
            &PulseSpecialization::bottom(),
            &vec![vec![
                HeapPath::FieldAccess(f, Box::new(HeapPath::Pvar(local("p")))),
                HeapPath::Pvar(local("q")),
            ]],
        )
    };
    assert!(field_of("S").same(&field_of("S")));
    assert!(!field_of("S").same(&field_of("T")));
}

#[test]
fn a_node_that_stops_hands_on_its_input() {
    let budget = Budget { max_heap_mb: None, max_wall_secs: Some(1) };
    let usage = Usage { start_peak_rss_bytes: 0, peak_rss_bytes: None, elapsed_secs: 5 };
    let pre = Disjuncts { disjuncts: vec![abort_at(2), abort_at(3)], had_dropped_disjuncts: true };
    let old = Disjuncts { disjuncts: vec![abort_at(4)], had_dropped_disjuncts: false };
    let current = retained_post(&pre, Some(&old));
    assert_eq!(current.disjuncts, old.disjuncts);
    assert!(current.had_dropped_disjuncts);
    assert!(retained_post(&pre, None).disjuncts.is_empty());
    for stopped in [false, true] {
        let plan = plan_node(stopped, budget, usage, true, &pre.disjuncts, None);
        assert_eq!(plan, NodePlan::Stop);
        let post = handed_on(&plan, &pre, &current).unwrap();
        assert_eq!(post.disjuncts, pre.disjuncts);
        assert!(post.had_dropped_disjuncts);
    }
    assert_eq!(stopped_post(&pre).disjuncts, pre.disjuncts);
    let unknown = handed_on(&NodePlan::Unknown, &pre, &current).unwrap();
    assert_eq!(unknown.disjuncts, pre.disjuncts);
    let kept = handed_on(&NodePlan::Keep, &pre, &current).unwrap();
    assert_eq!(kept.disjuncts, old.disjuncts);
    assert!(handed_on(&NodePlan::Run(vec![]), &pre, &current).is_none());
    assert!(handed_on(&NodePlan::Join(vec![]), &pre, &current).is_none());
}

#[test]
fn only_the_declaration_makes_a_procedure_not_return() {
    for declared in [false, true] {
        let mut pdesc = proc_f();
        pdesc.is_no_return = declared;
        assert_eq!(scan_procedure(&pdesc, &vec![]).is_noreturn, declared);
        let exit = NodeStates {
            node: pdesc.exit_node,
            states: vec![ExecutionDomain::ContinueProgram(fresh_state())],
            answers: vec![ScanAnswer::Nothing],
            had_dropped_disjuncts: false,
        };
        assert_eq!(scan_procedure(&pdesc, &vec![exit]).is_noreturn, declared);
    }
}

#[test]
fn the_second_of_two_pure_calls_joins_the_first() {
    let mut state = fresh_state();
    let f = Procname::c_from_string("f");
    let args = vec![v(3)];
    assert!(pure_call_fits(&state, v(10), &f, &args));
    assert!(record_pure_call(&mut state, v(10), &f, &args));
    assert!(pure_call_fits(&state, v(20), &f, &args));
    assert!(record_pure_call(&mut state, v(20), &f, &args));
    assert_eq!(state.path_condition.get_var_repr(v(20)), v(10));
    assert!(pure_call_fits(&state, v(20), &f, &args));
    assert!(!pure_call_fits(&state, v(5), &f, &args));
    let sum = Term::Add(Box::new(Term::Const(i64::MAX)), Box::new(Term::Var(v(7))));
    let atom = Atom::NotEqual(sum, Term::Const(0));
    assert!(state.path_condition.and_atom_direct(atom).is_sat());
    assert!(pure_call_fits(&state, v(30), &f, &args));
    assert!(state.path_condition.and_equal_linear(v(30), LinArith::of_int(1)).is_sat());
    assert!(!pure_call_fits(&state, v(30), &f, &args));
}

#[test]
fn a_formal_is_read_through_its_slot() {
    let name = Mangled::from_string("x");
    let mut pdesc = proc_f();
    pdesc.formals = vec![(name.clone(), Typ::mk_ptr(Typ::void()))];
    let mut counters = FreshCounters::new();
    let mut state = AbductiveDomain::mk_initial(&pdesc, &mut counters);
    let proc_name = pdesc.proc_name.clone();
    let first = formal_pointee(&mut state, &name, &proc_name, &mut counters);
    assert!(first.is_some());
    assert_eq!(formal_pointee(&mut state, &name, &proc_name, &mut counters), first);
    let other = Mangled::from_string("y");
    assert_eq!(formal_pointee(&mut state, &other, &proc_name, &mut counters), None);
}
