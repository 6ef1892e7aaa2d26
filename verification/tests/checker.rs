use pulse::abductive::AbductiveDomain;
use pulse::abstract_value::{AbstractValue, FreshCounters};
use pulse::access::Access;
use pulse::attribute::Attribute;
use pulse::checker::call_run::{CallAnswer, CallEnd, CallNext, CallPhase, CallQuestion, CallRun};
use pulse::checker::calls::{
    call_action, forces_continue, havoc_unresolved_argument, record_pure_call,
    resolve_virtual_call_target, summary_action, write_unknown_result, CallAction, CalleeFacts,
    SummaryAction,
};
use pulse::checker::disjuncts::{plan_node, Budget, NodePlan, Usage};
use pulse::checker::issues::{to_issue_log, IssueReportContext, LatentEntry};
use pulse::checker::scan::PrePostKind;
use pulse::checker::specialize::{
    next_specialization_step, queue_specialization_request, HeapPath, PulseSpecialization,
    SpecializationRequest, SpecializationStep,
};
use pulse::checker::stats::{FixpointStats, FixpointTopNode, NodeState, ProcProgress};
use pulse::diagnostic::Diagnostic;
use pulse::execution_domain::ExecutionDomain;
use pulse::invalidation::Invalidation;
use pulse::sil::{
    Fieldname, HackClassName, HackProcname, Ident, IdentName, IntLit, Location, Mangled, Procdesc,
    Procname, Pvar, QualifiedCppName, Typ, TypeName, Var,
};
use pulse::value_history::ValueHistory;

const NOTHING_KNOWN: CalleeFacts = CalleeFacts { has_model: false, has_summary: false };

fn run_of(caller: &Procname, callee: &Procname, is_virtual: bool) -> CallRun {
    CallRun {
        caller: caller.clone(),
        callee: Some(callee.clone()),
        is_virtual,
        has_arguments: true,
        needs_type: false,
        phase: CallPhase::Finished,
    }
}

fn write_id(id: &Ident, value: AbstractValue, state: &mut AbductiveDomain) {
    state.post.stack.add(Var::LogicalVar(id.clone()), value);
}

fn formal_value_heap_path(formal_pvar: &Pvar) -> HeapPath {
    HeapPath::Dereference(Box::new(HeapPath::Pvar(formal_pvar.clone())))
}

fn null_dereference(addr: AbstractValue) -> Diagnostic {
    let invalidation = Invalidation::ConstantDereference(IntLit::zero());
    Diagnostic::AccessToInvalidAddress {
        addr,
        invalidation: invalidation.clone(),
        access_location: Location::dummy(),
        trace_access_location: None,
        access_history: ValueHistory::epoch(),
        invalidation_history: ValueHistory::invalidated(invalidation, Location::dummy()),
    }
}

fn initial_state(name: &str, counters: &mut FreshCounters) -> AbductiveDomain {
    let pname = Procname::c_from_string(name);
    let pdesc = Procdesc::new(pname, Typ::void(), Location::dummy());
    AbductiveDomain::mk_initial(&pdesc, counters)
}

/// The alias groups that applying the summary of a callee with a formal `p` asks
/// for, and the specialization to them.
fn alias_specialization() -> (Procname, Vec<Vec<HeapPath>>, PulseSpecialization) {
    let node_struct = TypeName::CStruct(QualifiedCppName::from_string("node"));
    let next_field = Fieldname::make(node_struct, "next");
    let callee_pname = Procname::c_from_string("callee");
    let formal_pvar = Pvar::mk(Mangled::from_string("p"), callee_pname.clone());
    let groups = vec![vec![
        HeapPath::FieldAccess(next_field.clone(), Box::new(formal_value_heap_path(&formal_pvar))),
        formal_value_heap_path(&formal_pvar),
    ]];
    let alias_spec = PulseSpecialization {
        aliases: Some(vec![vec![
            formal_value_heap_path(&formal_pvar),
            HeapPath::FieldAccess(next_field, Box::new(formal_value_heap_path(&formal_pvar))),
        ]]),
        dynamic_types: vec![],
    };
    (callee_pname, groups, alias_spec)
}

#[test]
fn test_exec_node_skips_reexecuting_old_pre_disjuncts() {
    let mut counters = FreshCounters::new();
    let state = vec![ExecutionDomain::ContinueProgram(initial_state(
        "skip_old_pre_disjuncts",
        &mut counters,
    ))];
    let budget = Budget { max_heap_mb: None, max_wall_secs: None };
    let usage = Usage { start_peak_rss_bytes: 0, peak_rss_bytes: None, elapsed_secs: 0 };
    let mut progress = ProcProgress::new();

    let plan = plan_node(false, budget, usage, true, &state, Some(&state));
    if let NodePlan::Run(states) = &plan {
        progress.note_step(0, states.len());
    }

    assert_eq!(plan, NodePlan::Keep);
    assert_eq!(
        progress.exec_steps,
        0,
        "revisiting a node with no new pre disjuncts should not re-execute its instructions"
    );
}

#[test]
fn test_fixpoint_stats_reports_top_nodes_by_disjuncts_then_visits() {
    let mut counters = FreshCounters::new();
    let exec = ExecutionDomain::ContinueProgram(initial_state("fixpoint_top_nodes", &mut counters));
    let mk_domain = |count| vec![exec.clone(); count];

    let inv_map = vec![
        NodeState { node: 10, visit_count: 2, post: mk_domain(4) },
        NodeState { node: 3, visit_count: 4, post: mk_domain(4) },
        NodeState { node: 7, visit_count: 3, post: mk_domain(3) },
        NodeState { node: 1, visit_count: 5, post: mk_domain(1) },
    ];

    let stats = FixpointStats::from_inv_map(&inv_map);

    assert_eq!(stats.max_node_disjuncts, 4);
    assert_eq!(
        stats.top_nodes,
        vec![
            FixpointTopNode { node: 3, disjuncts: 4, visit_count: 4 },
            FixpointTopNode { node: 10, disjuncts: 4, visit_count: 2 },
            FixpointTopNode { node: 7, disjuncts: 3, visit_count: 3 },
        ]
    );
    assert_eq!(stats.top_nodes_summary(), "3:4d:4v, 10:4d:2v, 7:3d:3v");
    assert_eq!(stats.nodes, 4);
    assert_eq!(stats.revisited_nodes, 4);
    assert_eq!(stats.max_visit_count, 5);
    assert_eq!(stats.states.disjuncts, 12);
    assert_eq!(stats.states.continue_count, 12);
}

#[test]
fn test_to_issue_log_filters_suppressed_null_deref_by_default() {
    let mut counters = FreshCounters::new();
    let diagnostic = null_dereference(AbstractValue::mk_fresh(&mut counters));
    let mut ctx = IssueReportContext {
        proc_name: "suppressed_null_deref".to_string(),
        procedure_start_line: None,
        report_suppressed: false,
    };

    let log = to_issue_log(&vec![diagnostic.clone()], &vec![], &ctx, false);

    assert!(
        log.is_empty(),
        "suppressed constant-dereference diagnostics should stay out of default reporting"
    );

    ctx.report_suppressed = true;
    let log = to_issue_log(&vec![diagnostic.clone(), diagnostic], &vec![], &ctx, false);
    assert_eq!(log.len(), 1);
    assert_eq!(log[0].bug_type, "NULLPTR_DEREFERENCE");
    assert!(log[0].trace.starts_with("*** SUPPRESSED ***,"));
}

#[test]
fn test_to_issue_log_reports_latent_abort_pre_post() {
    let mut counters = FreshCounters::new();
    let local_val = AbstractValue::mk_fresh(&mut counters);
    let invalidation = Invalidation::CFree;
    let diagnostic = Diagnostic::AccessToInvalidAddress {
        addr: local_val,
        invalidation: invalidation.clone(),
        access_location: Location::dummy(),
        trace_access_location: None,
        access_history: ValueHistory::assignment(Location::dummy()),
        invalidation_history: ValueHistory::invalidated(invalidation, Location::dummy()),
    };
    let pre_post = LatentEntry {
        kind: PrePostKind::LatentAbortProgram,
        diagnostic: Some(diagnostic),
        from_state: None,
        from_export: None,
        reportable: true,
        report_key: None,
    };
    let ctx = IssueReportContext {
        proc_name: "latent_abort".to_string(),
        procedure_start_line: None,
        report_suppressed: false,
    };

    let log = to_issue_log(&vec![], &vec![pre_post], &ctx, false);

    assert_eq!(log.len(), 1);
    assert_eq!(
        log[0].bug_type,
        "USE_AFTER_FREE_LATENT",
        "latent abort pre/posts should be published into the issue log"
    );
    assert_eq!(log[0].procedure, "latent_abort");
}

/// A state of a procedure with a function pointer `f` and an integer `i`, with the
/// values that they hold.
fn invoke_state(
    caller_pname: &Procname,
    counters: &mut FreshCounters,
) -> (AbductiveDomain, AbstractValue, AbstractValue) {
    let mut pdesc = Procdesc::new(caller_pname.clone(), Typ::mk_int(), Location::dummy());
    pdesc.formals = vec![
        (Mangled::from_string("f"), Typ::mk_ptr(Typ::void())),
        (Mangled::from_string("i"), Typ::mk_int()),
    ];
    let mut state = AbductiveDomain::mk_initial(&pdesc, counters);
    let f_pvar = Pvar::mk(Mangled::from_string("f"), caller_pname.clone());
    let f_addr = state.post.stack.find(&Var::ProgramVar(Box::new(f_pvar))).unwrap();
    let funptr_val = state.read_heap(f_addr, Access::Dereference, counters);
    let i_pvar = Pvar::mk(Mangled::from_string("i"), caller_pname.clone());
    let i_addr = state.post.stack.find(&Var::ProgramVar(Box::new(i_pvar))).unwrap();
    let arg_val = state.read_heap(i_addr, Access::Dereference, counters);
    let fp_id = Ident::create_normal(IdentName::from_string("fp"), 0);
    write_id(&fp_id, funptr_val, &mut state);
    let arg_id = Ident::create_normal(IdentName::from_string("arg"), 1);
    write_id(&arg_id, arg_val, &mut state);
    (state, funptr_val, arg_val)
}

#[test]
fn test_exec_call_c_function_ptr_unknown_derefs_funptr_and_marks_unknown_effect() {
    let mut counters = FreshCounters::new();
    let caller_pname = Procname::c_from_string("invoke");
    let (mut state, funptr_val, arg_val) = invoke_state(&caller_pname, &mut counters);
    let ret_id = Ident::create_normal(IdentName::from_string("ret"), 2);

    let model = Procname::c_from_string("__call_c_function_ptr");
    let mut run = run_of(&caller_pname, &model, false);
    assert!(matches!(run.start(None), CallNext::Ask(CallQuestion::Pointer)));
    state.initialize(funptr_val);
    state.initialize(arg_val);
    let target = state.get_closure_proc_name(funptr_val).cloned();
    assert!(target.is_none());
    assert!(matches!(
        run.answer(CallAnswer::Pointee(None)),
        CallNext::Ask(CallQuestion::Dereference)
    ));
    let _ = state.read_heap(funptr_val, Access::Dereference, &mut counters);
    state.mark_must_be_valid_at(funptr_val, &Location::dummy());
    state.pre.attrs.add_one(funptr_val, Attribute::MustBeInitialized(0, Location::dummy()));
    assert!(matches!(
        run.answer(CallAnswer::Dereferenced(true)),
        CallNext::Do(CallEnd::HavocArguments)
    ));
    if run.needs_type {
        state.add_need_dynamic_type_specialization(funptr_val);
    }
    let ret_val = write_unknown_result(&mut state, &ret_id, &Typ::mk_int(), &mut counters);
    havoc_unresolved_argument(&mut state, arg_val, &mut counters);

    assert!(
        state.need_dynamic_type_specialization.contains(&funptr_val),
        "unresolved call should request specialization from the function pointer value"
    );
    assert!(
        state.pre.heap.find_edge(funptr_val, &Access::Dereference).is_some(),
        "unresolved call should read through the function pointer in the pre-state"
    );
    assert!(
        state.post.heap.find_edge(funptr_val, &Access::Dereference).is_some(),
        "unresolved call should keep the function-pointer dereference in the post-state"
    );
    assert!(
        state
            .pre
            .attrs
            .get(&funptr_val)
            .is_some_and(|attrs| attrs.get_must_be_valid().is_some()),
        "dereferencing the function pointer should abduce MustBeValid on that value"
    );
    assert!(
        state
            .pre
            .attrs
            .get(&funptr_val)
            .is_some_and(|attrs| attrs.get_must_be_initialized().is_some()),
        "dereferencing the function pointer should abduce MustBeInitialized on that value"
    );
    assert!(
        state
            .post
            .attrs
            .get(&funptr_val)
            .is_some_and(|attrs| attrs.contains(&Attribute::Initialized)),
        "model dispatch should conservatively initialize the function pointer value"
    );
    assert!(
        state.post.attrs.get(&arg_val).is_some_and(|attrs| {
            attrs.contains(&Attribute::Initialized) && attrs.contains(&Attribute::UnknownEffect)
        }),
        "unresolved call should conservatively initialize actual values and keep UnknownEffect"
    );
    assert_eq!(state.post.stack.find(&Var::LogicalVar(ret_id)), Some(ret_val));
    assert!(
        state.path_condition.phi().is_marked_int(ret_val),
        "integer return type should keep the is_int fact on the fresh unknown result"
    );
}

#[test]
fn test_exec_call_c_function_ptr_resolved_target_without_summary_uses_direct_unknown_call() {
    let mut counters = FreshCounters::new();
    let caller_pname = Procname::c_from_string("invoke");
    let (mut state, funptr_val, arg_val) = invoke_state(&caller_pname, &mut counters);
    let target_pname = Procname::c_from_string("recursive_target");
    state.add_attr(funptr_val, Attribute::Closure(target_pname.clone()));
    let ret_id = Ident::create_normal(IdentName::from_string("ret"), 2);

    let model = Procname::c_from_string("__call_c_function_ptr");
    let mut run = run_of(&caller_pname, &model, false);
    assert!(matches!(run.start(None), CallNext::Ask(CallQuestion::Pointer)));
    let target = state.get_closure_proc_name(funptr_val).cloned();
    assert!(matches!(
        run.answer(CallAnswer::Pointee(target)),
        CallNext::Ask(CallQuestion::Facts(p)) if p == target_pname
    ));
    let CallNext::Do(CallEnd::CallUnknown(callee)) = run.answer(CallAnswer::Facts(NOTHING_KNOWN))
    else {
        panic!("expected resolved known target without summary to be called as unknown");
    };
    assert!(!run.needs_type);
    let ret_val = write_unknown_result(&mut state, &ret_id, &Typ::mk_int(), &mut counters);
    assert!(record_pure_call(&mut state, ret_val, &callee, &vec![arg_val]));

    assert!(
        !state.need_dynamic_type_specialization.contains(&funptr_val),
        "resolved target should not be treated as unresolved funptr specialization work"
    );
    assert!(
        !state
            .post
            .attrs
            .get(&arg_val)
            .is_some_and(|attrs| attrs.contains(&Attribute::UnknownEffect)),
        "resolved known target without summary should not mark integer actuals UnknownEffect"
    );
    assert_eq!(state.post.stack.find(&Var::LogicalVar(ret_id)), Some(ret_val));
    assert!(
        state.path_condition.phi().is_marked_int(ret_val),
        "integer return type should keep the is_int fact on the fallback result"
    );
    let fn_apps = state.path_condition.phi().iter_fn_app_eqs();
    assert_eq!(
        fn_apps.len(),
        1,
        "direct unknown-call fallback should retain the pure function application"
    );
    assert_eq!(fn_apps.key_at(0).callee, target_pname.to_string());
    assert_eq!(
        state.path_condition.get_var_repr(*fn_apps.value_at(0)),
        state.path_condition.get_var_repr(ret_val),
        "the pure function application should define the written return value"
    );
}

#[test]
fn test_exec_known_callee_summary_requests_alias_specialization_from_contradiction() {
    let (callee_pname, groups, alias_spec) = alias_specialization();
    let mut requests: Vec<SpecializationRequest> = Vec::new();
    let mut tried: Vec<PulseSpecialization> = Vec::new();

    let results: Vec<ExecutionDomain> = Vec::new();
    let step = next_specialization_step(
        &PulseSpecialization::bottom(),
        false,
        &vec![PrePostKind::ContinueProgram],
        &results,
        &groups,
        &tried,
    );
    let SpecializationStep::Try(next) = step else {
        panic!("an alias contradiction should be tried with the aliases");
    };
    tried.push(next.clone());
    queue_specialization_request(&mut requests, &callee_pname, false, next.clone());
    queue_specialization_request(&mut requests, &callee_pname, false, next);

    assert!(results.is_empty(), "missing cached alias specialization should defer the call");
    assert_eq!(
        requests,
        vec![SpecializationRequest { callee: callee_pname, specialization: alias_spec }],
        "alias contradiction should enqueue the alias specialization request"
    );
}

#[test]
fn test_exec_known_callee_summary_uses_cached_alias_specialization() {
    let mut counters = FreshCounters::new();
    let (callee_pname, groups, alias_spec) = alias_specialization();
    let mut requests: Vec<SpecializationRequest> = Vec::new();
    let mut tried: Vec<PulseSpecialization> = Vec::new();

    let step = next_specialization_step(
        &PulseSpecialization::bottom(),
        false,
        &vec![PrePostKind::ContinueProgram],
        &vec![],
        &groups,
        &tried,
    );
    assert_eq!(step, SpecializationStep::Try(alias_spec.clone()));
    tried.push(alias_spec.clone());
    queue_specialization_request(&mut requests, &callee_pname, true, alias_spec.clone());

    let results = vec![ExecutionDomain::ContinueProgram(initial_state("caller", &mut counters))];
    let step = next_specialization_step(
        &alias_spec,
        false,
        &vec![PrePostKind::ContinueProgram],
        &results,
        &vec![],
        &tried,
    );
    assert_eq!(
        step,
        SpecializationStep::Done { incomplete: false },
        "specialized summary effect should apply after alias-specialized retry"
    );
    assert!(
        requests.is_empty(),
        "cached specialization should avoid re-enqueueing the same alias request"
    );
}

#[test]
fn test_exec_known_callee_summary_force_continue_for_alias_specialized_latent_invalid_summary_without_continue(
) {
    let mut counters = FreshCounters::new();
    let (_callee_pname, _groups, alias_spec) = alias_specialization();
    let diagnostic = null_dereference(AbstractValue::mk_fresh(&mut counters));
    let results = vec![ExecutionDomain::LatentInvalidAccess {
        state: Box::new(initial_state("caller", &mut counters)),
        diagnostic: Box::new(diagnostic),
    }];
    let step = next_specialization_step(
        &alias_spec,
        false,
        &vec![PrePostKind::LatentInvalidAccess],
        &results,
        &vec![],
        &vec![alias_spec.clone()],
    );
    let SpecializationStep::Done { incomplete } = step else {
        panic!("results should end the search for a specialization");
    };
    assert!(
        forces_continue(true, &results, incomplete),
        "alias-specialized summaries with only stopped states should still gain the unknown-call continue"
    );
}

#[test]
fn test_exec_known_callee_summary_force_continue_for_empty_summary() {
    let callee_pname = Procname::c_from_string("empty_known");
    assert_eq!(
        summary_action(&callee_pname, false, false, 0),
        SummaryAction::NothingApplies
    );
    assert!(
        forces_continue(true, &vec![], true),
        "empty known summaries should fall back to unknown-call continue"
    );
}

#[test]
fn test_exec_known_callee_summary_force_continue_appends_unknown_continue_for_dropped_summary() {
    let callee_pname = Procname::c_from_string("abort_only");
    assert_eq!(summary_action(&callee_pname, false, false, 1), SummaryAction::Apply);
    let step = next_specialization_step(
        &PulseSpecialization::bottom(),
        true,
        &vec![PrePostKind::AbortProgram],
        &vec![],
        &vec![],
        &vec![],
    );
    assert_eq!(step, SpecializationStep::Done { incomplete: true });
    assert!(
        forces_continue(true, &vec![], true),
        "dropped-summary known calls should gain an unknown-call continue"
    );
}

#[test]
fn test_exec_known_callee_summary_does_not_force_continue_for_precise_abort_only_summary() {
    let step = next_specialization_step(
        &PulseSpecialization::bottom(),
        false,
        &vec![PrePostKind::AbortProgram],
        &vec![],
        &vec![],
        &vec![],
    );
    assert_eq!(step, SpecializationStep::Done { incomplete: false });
    assert!(
        !forces_continue(true, &vec![], false),
        "precise abort-only summaries should not be widened into unknown-call continues"
    );
}

#[test]
fn test_devirtualized_target_without_summary_requests_specialization() {
    let mut counters = FreshCounters::new();
    let caller_pname = Procname::Hack(HackProcname {
        class_name: Some(HackClassName("Caller".into())),
        function_name: "call_foo".into(),
        arity: Some(1),
    });
    let virt_callee = Procname::Hack(HackProcname {
        class_name: Some(HackClassName("Base".into())),
        function_name: "foo".into(),
        arity: Some(1),
    });
    let resolved_target = Procname::Hack(HackProcname {
        class_name: Some(HackClassName("Sub".into())),
        function_name: "foo".into(),
        arity: Some(1),
    });
    let mut pdesc = Procdesc::new(caller_pname.clone(), Typ::mk_int(), Location::dummy());
    let recv_typ = Typ::mk_ptr(Typ::mk_struct(TypeName::HackClass(HackClassName("Base".into()))));
    pdesc.formals = vec![(Mangled::from_string("recv"), recv_typ.clone())];
    let mut state = AbductiveDomain::mk_initial(&pdesc, &mut counters);
    let recv_pvar = Pvar::mk(Mangled::from_string("recv"), caller_pname.clone());
    let recv_addr = state.post.stack.find(&Var::ProgramVar(Box::new(recv_pvar))).unwrap();
    let recv_val = state.read_heap(recv_addr, Access::Dereference, &mut counters);
    let dynamic_type = Typ::mk_struct(TypeName::HackClass(HackClassName("Sub".into())));

    assert_eq!(
        resolve_virtual_call_target(&virt_callee, Some(&dynamic_type)),
        Some(resolved_target.clone()),
    );

    let mut run = run_of(&caller_pname, &virt_callee, true);
    assert!(matches!(run.start(None), CallNext::Ask(CallQuestion::Receiver)));
    assert!(matches!(
        run.answer(CallAnswer::DynamicType(Some(dynamic_type))),
        CallNext::Ask(CallQuestion::Facts(p)) if p == resolved_target
    ));
    assert!(matches!(
        run.answer(CallAnswer::Facts(NOTHING_KNOWN)),
        CallNext::Ask(CallQuestion::Facts(p)) if p == virt_callee
    ));
    assert!(matches!(
        run.answer(CallAnswer::Facts(NOTHING_KNOWN)),
        CallNext::Do(CallEnd::Transfer)
    ));
    if run.needs_type {
        state.add_need_dynamic_type_specialization(recv_val);
    }
    assert!(
        state.need_dynamic_type_specialization.contains(&recv_val),
        "missing-target devirtualization should request dynamic type specialization on the receiver"
    );
}

#[test]
fn a_call_runs_the_model_before_the_summary_and_recursion_last() {
    let caller = Procname::c_from_string("caller");
    let callee = Procname::c_from_string("callee");
    let both = CalleeFacts { has_model: true, has_summary: true };
    let summary = CalleeFacts { has_model: false, has_summary: true };
    assert_eq!(call_action(&caller, &callee, both), CallAction::RunModel);
    assert_eq!(call_action(&caller, &callee, summary), CallAction::ApplySummary);
    assert_eq!(call_action(&caller, &callee, NOTHING_KNOWN), CallAction::Transfer);
    assert_eq!(call_action(&caller, &caller, NOTHING_KNOWN), CallAction::CallUnknown);
    assert_eq!(call_action(&caller, &caller, summary), CallAction::ApplySummary);
    let pointer = Procname::c_from_string("__call_c_function_ptr");
    assert_eq!(call_action(&caller, &pointer, both), CallAction::CallFunctionPointer);
}
