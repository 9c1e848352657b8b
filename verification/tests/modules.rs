use std::cmp::Ordering;
use taskman::details::ProcessIdentity;
use taskman::module_list::{
    State, Toolbar, UnloadHint, header_index, module_matches_filter, opening_sort, toolbar, visible_modules,
};
use taskman::module_unload::{
    ForceUnload, MAX_FORCE_UNLOAD_RELEASES, UnloadAction, UnloadEvent, UnloadOutcome, still_mapped,
};
use taskman::modules::{ProcessModule, SortColumn, compare_modules};

fn module(name: &str, base: u64, size: u64) -> ProcessModule {
    ProcessModule { name: name.into(), path: format!("C:\\Test\\{name}"), base_address: base, size_bytes: size }
}

fn state() -> State {
    State::new(ProcessIdentity { pid: 1, start_epoch_s: None }, "target.exe".into(), SortColumn::Name, true)
}

#[test]
fn module_sort_uses_the_selected_field() {
    let a = module("z.dll", 1, 10);
    let b = module("a.dll", 2, 20);
    assert_eq!(compare_modules(&a, &b, SortColumn::Name), Ordering::Greater);
    assert_eq!(compare_modules(&a, &b, SortColumn::Base), Ordering::Less);
    assert_eq!(compare_modules(&a, &b, SortColumn::Size), Ordering::Less);
}

#[test]
fn module_filter_matches_name_or_full_path() {
    let mut state = state();
    let modules = vec![module("alpha.dll", 1, 1), module("beta.dll", 2, 2)];
    state.filter = "alpha".into();
    assert_eq!(visible_modules(&state, &modules).len(), 1);
    state.filter = "test\\beta".into();
    assert_eq!(visible_modules(&state, &modules)[0].name, "beta.dll");
}

#[test]
fn module_filter_is_trimmed_and_ignores_ascii_case() {
    let mut state = state();
    let modules = vec![module("Alpha.DLL", 1, 1), module("beta.dll", 2, 2)];
    state.filter = "  ALPHA ".into();
    let rows = visible_modules(&state, &modules);
    assert_eq!(rows.len(), 1);
    assert_eq!(rows[0].name, "Alpha.DLL");
    assert!(module_matches_filter(&modules[1], ""));
    assert!(!module_matches_filter(&modules[1], "BETA"), "the needle arrives lower-cased");
}

#[test]
fn module_rows_sort_stably_in_either_direction() {
    let mut state = state();
    state.sort = SortColumn::Size;
    let modules = vec![module("b.dll", 30, 5), module("a.dll", 10, 5), module("c.dll", 20, 1)];
    let bases: Vec<u64> = visible_modules(&state, &modules).iter().map(|m| m.base_address).collect();
    assert_eq!(bases, vec![20, 10, 30], "equal sizes fall back to the base address");
    state.ascending = false;
    let bases: Vec<u64> = visible_modules(&state, &modules).iter().map(|m| m.base_address).collect();
    assert_eq!(bases, vec![30, 10, 20]);
}

#[test]
fn sort_columns_roundtrip_their_ids() {
    for c in [SortColumn::Name, SortColumn::Base, SortColumn::Size, SortColumn::Path] {
        assert_eq!(SortColumn::from_id(c.id()), Some(c));
    }
    assert_eq!(SortColumn::from_id("weight"), None);
    assert_eq!(opening_sort(None), (SortColumn::Name, true));
    assert_eq!(opening_sort(Some(("size", false))), (SortColumn::Size, false));
    assert_eq!(opening_sort(Some(("bogus", false))), (SortColumn::Name, false));
}

#[test]
fn a_selection_that_died_falls_back_to_the_first_module() {
    let mut state = state();
    let modules = vec![module("a.dll", 10, 1), module("b.dll", 20, 1)];
    state.selected_base = Some(99);
    state.keep_selection_alive(&modules);
    assert_eq!(state.selected_base, Some(10));
    state.selected_base = Some(20);
    state.keep_selection_alive(&modules);
    assert_eq!(state.selected_base, Some(20));
    state.keep_selection_alive(&[]);
    assert_eq!(state.selected_base, None);
}

#[test]
fn the_selected_module_must_pass_the_filter() {
    let mut state = state();
    let modules = vec![module("a.dll", 10, 1), module("b.dll", 20, 1)];
    state.selected_base = Some(20);
    assert_eq!(state.selected_module(&modules).map(|m| m.name), Some("b.dll".to_string()));
    state.filter = " A.DLL".into();
    assert!(state.selected_module(&modules).is_none());
    state.selected_base = None;
    assert!(state.selected_module(&modules).is_none());
}

#[test]
fn header_clicks_toggle_or_pick_the_natural_direction() {
    let mut state = state();
    state.header_clicked(header_index(SortColumn::Name));
    assert_eq!((state.sort, state.ascending), (SortColumn::Name, false));
    state.header_clicked(2);
    assert_eq!((state.sort, state.ascending), (SortColumn::Size, false));
    state.header_clicked(7);
    assert_eq!((state.sort, state.ascending), (SortColumn::Path, true));
    state.header_clicked(1);
    assert_eq!((state.sort, state.ascending), (SortColumn::Base, false));
}

#[test]
fn escape_closes_the_inspector_unless_the_confirmation_is_up() {
    let mut state = state();
    assert!(state.stays_open(true, false));
    assert!(!state.stays_open(true, true));
    assert!(!state.stays_open(false, false));
    state.pending_unload = Some(module("a.dll", 1, 1));
    assert!(state.stays_open(true, true));
}

#[test]
fn the_toolbar_never_runs_inventory_and_unload_together() {
    assert_eq!(
        toolbar(true, true, false, false),
        Toolbar {
            refresh_enabled: true,
            unload_enabled: true,
            unload_hint: UnloadHint::ModuleBusy,
            menu_unload_enabled: true,
            spinner: false,
        }
    );
    let busy = toolbar(true, true, true, false);
    assert!(!busy.refresh_enabled && !busy.unload_enabled && !busy.menu_unload_enabled && busy.spinner);
    let none = toolbar(true, false, false, false);
    assert!(!none.unload_enabled && none.menu_unload_enabled);
    assert_eq!(none.unload_hint, UnloadHint::SelectModuleFirst);
    assert!(!toolbar(false, true, false, false).unload_enabled);
}

#[test]
fn a_module_is_still_mapped_only_at_the_same_base_and_path() {
    let modules = vec![module("a.dll", 10, 1), module("b.dll", 20, 1)];
    assert!(still_mapped(&modules, 20, "c:\\test\\B.DLL"));
    assert!(!still_mapped(&modules, 10, "C:\\Test\\b.dll"));
    assert!(!still_mapped(&[], 10, "C:\\Test\\a.dll"));
}

#[test]
fn force_unload_releases_again_only_while_still_mapped() {
    let (mut run, first) = ForceUnload::start();
    assert_eq!(first, UnloadAction::Release);
    assert_eq!(run.step(UnloadEvent::Released(None)), UnloadAction::List);
    assert_eq!(run.step(UnloadEvent::Listed(true)), UnloadAction::Release);
    assert_eq!(run.step(UnloadEvent::Released(Some(false))), UnloadAction::List);
    assert_eq!(run.step(UnloadEvent::Listed(false)), UnloadAction::Finish(UnloadOutcome::Unloaded));
    assert!(run.is_done());
    assert_eq!(run.releases(), 2);
}

#[test]
fn force_unload_stops_after_the_release_cap() {
    let (mut run, _) = ForceUnload::start();
    let mut last = UnloadAction::Release;
    let mut rounds = 0;
    while last == UnloadAction::Release {
        assert_eq!(run.step(UnloadEvent::Released(Some(true))), UnloadAction::List);
        last = run.step(UnloadEvent::Listed(true));
        rounds += 1;
    }
    assert_eq!(rounds, MAX_FORCE_UNLOAD_RELEASES);
    assert_eq!(last, UnloadAction::Finish(UnloadOutcome::StillMapped { releases: 64 }));
}

#[test]
fn force_unload_reports_errors_after_one_more_inventory() {
    let (mut run, _) = ForceUnload::start();
    assert_eq!(run.step(UnloadEvent::ReleaseFailed("denied".into())), UnloadAction::List);
    assert_eq!(
        run.step(UnloadEvent::Listed(true)),
        UnloadAction::Finish(UnloadOutcome::ActionError("denied".into()))
    );

    let (mut run, _) = ForceUnload::start();
    run.step(UnloadEvent::Released(Some(true)));
    assert_eq!(
        run.step(UnloadEvent::ListFailed("gone".into())),
        UnloadAction::Finish(UnloadOutcome::RefreshFailed { releases: 1, error: "gone".into() })
    );

    // The platform's own observation stands in for the inventory that failed.
    let (mut run, _) = ForceUnload::start();
    run.step(UnloadEvent::Released(Some(false)));
    assert_eq!(run.step(UnloadEvent::ListFailed("gone".into())), UnloadAction::Finish(UnloadOutcome::Unloaded));

    let (mut run, _) = ForceUnload::start();
    run.step(UnloadEvent::Released(None));
    assert_eq!(
        run.step(UnloadEvent::ListFailed("gone".into())),
        UnloadAction::Finish(UnloadOutcome::RefreshFailed { releases: 1, error: "gone".into() })
    );
}

#[test]
fn an_answer_out_of_turn_changes_nothing() {
    let (mut run, _) = ForceUnload::start();
    assert_eq!(run.step(UnloadEvent::Listed(false)), UnloadAction::Release);
    assert_eq!(run.releases(), 0);
    assert!(!run.is_done());
}
