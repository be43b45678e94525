//! The download section of a project page: the runnable scripts of the latest
//! release above its artifact table, and the install header.
//!
//! Rendering a script, the table or the header is the caller's business. Each
//! renderer is handed in as a function; the composer decides what is rendered,
//! in which order, and how the results are put together.

use crate::label_order::{lemma_precedes_irreflexive, precedes};
use crate::markup::{
    assemble_page, empty_container, empty_container_markup, page_markup, script_widget,
    widget_markup, widget_markups, Fragment, ScriptWidget,
};
use crate::model::{Context, InstallMethod, Release, RenderError};
use crate::selection::{
    is_selection, label_at, lemma_distinct_labels_all_selected, lemma_one_entry_per_label,
    positions, runnable_at, runnable_labels_distinct, runnable_positions, select_runnable,
    survives,
};
use vstd::prelude::*;

verus! {

/// The script renderer may be called on the run method of the installer at
/// position `j`. The composer calls it on the selected installers only.
pub open spec fn script_call_allowed<C, S>(
    render: S,
    release: &Release,
    config: &C,
    j: int,
) -> bool where S: Fn(&String, &String, &Release, &C) -> Result<Fragment, RenderError> {
    release.installers[j].method matches InstallMethod::Run { file, run_hint } ==> render.requires(
        (&file, &run_hint, release, config),
    )
}

/// `outcome` is what the script renderer may return for the run method of the
/// installer at position `j`.
pub open spec fn script_outcome<C, S>(
    render: S,
    release: &Release,
    config: &C,
    j: int,
    outcome: Result<Fragment, RenderError>,
) -> bool where S: Fn(&String, &String, &Release, &C) -> Result<Fragment, RenderError> {
    release.installers[j].method matches InstallMethod::Run { file, run_hint } && render.ensures(
        (&file, &run_hint, release, config),
        outcome,
    )
}

/// `widget` shows the installer at position `j`: it carries that installer's
/// label and wraps a script that the renderer returned for it.
pub open spec fn widget_from<C, S>(
    render: S,
    release: &Release,
    config: &C,
    j: int,
    widget: ScriptWidget,
) -> bool where S: Fn(&String, &String, &Release, &C) -> Result<Fragment, RenderError> {
    &&& widget.label@ == label_at(release.installers@, j)
    &&& exists|script: Fragment| #[trigger]
        script_outcome(render, release, config, j, Ok(script)) && widget.fragment@
            == widget_markup(widget.label@, script@)
}

/// `widgets` shows the installers at `picks`, one widget each, in that order.
pub open spec fn scripts_rendered<C, S>(
    render: S,
    release: &Release,
    config: &C,
    picks: Seq<int>,
    widgets: Seq<ScriptWidget>,
) -> bool where S: Fn(&String, &String, &Release, &C) -> Result<Fragment, RenderError> {
    &&& widgets.len() == picks.len()
    &&& forall|i: int|
        0 <= i < picks.len() ==> widget_from(render, release, config, #[trigger] picks[i], widgets[i])
}

/// The renderer may return a script for the installer at position `j`.
pub open spec fn script_succeeds<C, S>(render: S, release: &Release, config: &C, j: int) -> bool where
    S: Fn(&String, &String, &Release, &C) -> Result<Fragment, RenderError>,
 {
    exists|script: Fragment| #[trigger] script_outcome(render, release, config, j, Ok(script))
}

/// The renderer returned a script for each of the first `i` installers at `picks`.
pub open spec fn rendered_before<C, S>(
    render: S,
    release: &Release,
    config: &C,
    picks: Seq<int>,
    i: int,
) -> bool where S: Fn(&String, &String, &Release, &C) -> Result<Fragment, RenderError> {
    forall|k: int| 0 <= k < i ==> script_succeeds(render, release, config, #[trigger] picks[k])
}

/// The renderer failed with `error` on the `i`-th installer at `picks`, after
/// it had returned a script for each one before it.
pub open spec fn failed_at<C, S>(
    render: S,
    release: &Release,
    config: &C,
    picks: Seq<int>,
    i: int,
    error: RenderError,
) -> bool where S: Fn(&String, &String, &Release, &C) -> Result<Fragment, RenderError> {
    &&& 0 <= i < picks.len()
    &&& script_outcome(render, release, config, picks[i], Err(error))
    &&& rendered_before(render, release, config, picks, i)
}

/// What `scripts` may return: a widget for every selected installer, in the
/// order of the selection, or the first failure of the renderer on them.
pub open spec fn scripts_outcome<C, S>(
    render: S,
    release: &Release,
    config: &C,
    result: Result<Vec<ScriptWidget>, RenderError>,
) -> bool where S: Fn(&String, &String, &Release, &C) -> Result<Fragment, RenderError> {
    exists|picks: Seq<int>| #[trigger]
        is_selection(release.installers@, picks) && match result {
            Ok(widgets) => scripts_rendered(render, release, config, picks, widgets@),
            Err(error) => exists|i: int| #[trigger]
                failed_at(render, release, config, picks, i, error),
        }
}

/// Renders the runnable installers of `release` as script widgets: one per
/// label, ordered by label. The first failure of the renderer ends the work
/// and is handed on.
pub fn scripts<C, S>(release: &Release, config: &C, render_run_script: S) -> (result: Result<
    Vec<ScriptWidget>,
    RenderError,
>) where S: Fn(&String, &String, &Release, &C) -> Result<Fragment, RenderError>
    requires
        forall|j: int| #[trigger]
            survives(release.installers@, j) ==> script_call_allowed(
                render_run_script,
                release,
                config,
                j,
            ),
    ensures
        scripts_outcome(render_run_script, release, config, result),
{
    let picks = select_runnable(&release.installers);
    let ghost chosen = positions(picks@);
    let mut output: Vec<ScriptWidget> = Vec::new();
    let mut i: usize = 0;
    while i < picks.len()
        invariant
            i <= picks.len(),
            output.len() == i,
            chosen == positions(picks@),
            is_selection(release.installers@, chosen),
            forall|j: int| #[trigger]
                survives(release.installers@, j) ==> script_call_allowed(
                    render_run_script,
                    release,
                    config,
                    j,
                ),
            forall|k: int|
                0 <= k < i ==> widget_from(
                    render_run_script,
                    release,
                    config,
                    #[trigger] chosen[k],
                    output[k],
                ),
        decreases picks.len() - i,
    {
        let ghost j = chosen[i as int];
        proof {
            assert(survives(release.installers@, j));
        }
        let installer = &release.installers[picks[i]];
        match &installer.method {
            InstallMethod::Run { file, run_hint } => {
                match render_run_script(file, run_hint, release, config) {
                    Ok(script) => {
                        let widget = script_widget(&installer.label, &script);
                        proof {
                            assert(script_outcome(render_run_script, release, config, j, Ok(script)));
                        }
                        output.push(widget);
                    },
                    Err(error) => {
                        let result = Err(error);
                        proof {
                            assert(is_selection(release.installers@, chosen));
                            assert(result matches Err(e) && failed_at(
                                render_run_script,
                                release,
                                config,
                                chosen,
                                i as int,
                                e,
                            ));
                        }
                        return result;
                    },
                }
            },
            InstallMethod::PackageManager => {
                return unreached();
            },
        }
        i += 1;
    }
    proof {
        assert(scripts_rendered(render_run_script, release, config, chosen, output@));
    }
    Ok(output)
}

/// What `page` may return for `release`: the composed section when the
/// scripts and the table were rendered, else the failure that ended the work.
/// The table is rendered only after the scripts were.
pub open spec fn page_outcome<C, S, T>(
    render_run_script: S,
    render_table: T,
    release: &Release,
    config: &C,
    result: Result<String, RenderError>,
) -> bool where
    S: Fn(&String, &String, &Release, &C) -> Result<Fragment, RenderError>,
    T: Fn(&Release, &C) -> Result<Fragment, RenderError>,
 {
    match result {
        Ok(page) => exists|widgets: Vec<ScriptWidget>, table: Fragment|
            {
                &&& #[trigger] scripts_outcome(render_run_script, release, config, Ok(widgets))
                &&& #[trigger] render_table.ensures((release, config), Ok(table))
                &&& page@ == page_markup(widget_markups(widgets@), table@)
            },
        Err(error) => {
            ||| scripts_outcome(render_run_script, release, config, Err(error))
            ||| exists|widgets: Vec<ScriptWidget>|
                {
                    &&& #[trigger] scripts_outcome(render_run_script, release, config, Ok(widgets))
                    &&& render_table.ensures((release, config), Err(error))
                }
        },
    }
}

/// Composes the download section for the latest release of `context`: the
/// script widgets in one region, the artifact table in the next. Without a
/// release the section is empty and no renderer is called.
pub fn page<C, S, T>(context: &Context, config: &C, render_run_script: S, render_table: T) -> (result:
    Result<String, RenderError>) where
    S: Fn(&String, &String, &Release, &C) -> Result<Fragment, RenderError>,
    T: Fn(&Release, &C) -> Result<Fragment, RenderError>,

    requires
        context.latest_release() matches Some(release) ==> {
            &&& forall|j: int| #[trigger]
                survives(release.installers@, j) ==> script_call_allowed(
                    render_run_script,
                    &release,
                    config,
                    j,
                )
            &&& render_table.requires((&release, config))
        },
    ensures
        match context.latest_release() {
            None => result matches Ok(page) && page@ == Seq::<char>::empty(),
            Some(release) => page_outcome(render_run_script, render_table, &release, config, result),
        },
{
    let release = match context.latest() {
        Some(release) => release,
        None => {
            return Ok(String::new());
        },
    };
    let widgets = match scripts(release, config, render_run_script) {
        Ok(widgets) => widgets,
        Err(error) => {
            return Err(error);
        },
    };
    let table = match render_table(release, config) {
        Ok(table) => table,
        Err(error) => {
            let result = Err(error);
            proof {
                assert(scripts_outcome(render_run_script, release, config, Ok(widgets)));
                assert(result matches Err(e) && render_table.ensures((release, config), Err(e)));
            }
            return result;
        },
    };
    let page = assemble_page(&widgets, &table);
    proof {
        assert(scripts_outcome(render_run_script, release, config, Ok(widgets)));
        assert(render_table.ensures((release, config), Ok(table)));
    }
    Ok(page)
}

/// Builds the install header of a given release: whatever the header
/// renderer returns for it.
pub fn header_for_release<C, H>(release: &Release, config: &C, render_header: H) -> (result: Result<
    Fragment,
    RenderError,
>) where H: Fn(&Release, &C) -> Result<Fragment, RenderError>
    requires
        render_header.requires((release, config)),
    ensures
        render_header.ensures((release, config), result),
{
    render_header(release, config)
}

/// Builds the install header of the latest release of `context`, or an empty
/// container when there is no release.
pub fn header<C, H>(context: &Context, config: &C, render_header: H) -> (result: Result<
    Fragment,
    RenderError,
>) where H: Fn(&Release, &C) -> Result<Fragment, RenderError>
    requires
        context.latest_release() matches Some(release) ==> render_header.requires(
            (&release, config),
        ),
    ensures
        match context.latest_release() {
            None => result matches Ok(fragment) && fragment@ == empty_container_markup(),
            Some(release) => render_header.ensures((&release, config), result),
        },
{
    match context.latest() {
        Some(release) => header_for_release(release, config, render_header),
        None => Ok(empty_container()),
    }
}

/// The selection whose installers the widgets that `scripts` returned show.
proof fn lemma_rendered_selection<C, S>(
    render: S,
    release: &Release,
    config: &C,
    widgets: Vec<ScriptWidget>,
) -> (picks: Seq<int>) where S: Fn(&String, &String, &Release, &C) -> Result<Fragment, RenderError>
    requires
        scripts_outcome(render, release, config, Ok(widgets)),
    ensures
        is_selection(release.installers@, picks),
        scripts_rendered(render, release, config, picks, widgets@),
{
    choose|picks: Seq<int>| #[trigger]
        is_selection(release.installers@, picks) && scripts_rendered(
            render,
            release,
            config,
            picks,
            widgets@,
        )
}

/// Every widget that `scripts` returns shows a runnable installer of the
/// release: one that is not hidden and installs by running a file.
pub proof fn lemma_widget_shows_runnable<C, S>(
    render: S,
    release: &Release,
    config: &C,
    widgets: Vec<ScriptWidget>,
    i: int,
) -> (j: int) where S: Fn(&String, &String, &Release, &C) -> Result<Fragment, RenderError>
    requires
        scripts_outcome(render, release, config, Ok(widgets)),
        0 <= i < widgets.len(),
    ensures
        runnable_at(release.installers@, j),
        widget_from(render, release, config, j, widgets[i]),
{
    let picks = lemma_rendered_selection(render, release, config, widgets);
    assert(survives(release.installers@, picks[i]));
    picks[i]
}

/// The widgets that `scripts` returns are ordered by label, strictly rising;
/// so no two of them carry the same label.
pub proof fn lemma_widgets_ascending<C, S>(
    render: S,
    release: &Release,
    config: &C,
    widgets: Vec<ScriptWidget>,
) where S: Fn(&String, &String, &Release, &C) -> Result<Fragment, RenderError>
    requires
        scripts_outcome(render, release, config, Ok(widgets)),
    ensures
        forall|i: int, j: int|
            0 <= i < j < widgets.len() ==> precedes(
                (#[trigger] widgets[i]).label@,
                (#[trigger] widgets[j]).label@,
            ),
        forall|i: int, j: int|
            0 <= i < widgets.len() && 0 <= j < widgets.len() && i != j
                ==> (#[trigger] widgets[i]).label@ != (#[trigger] widgets[j]).label@,
{
    let picks = lemma_rendered_selection(render, release, config, widgets);
    assert forall|i: int, j: int| 0 <= i < j < widgets.len() implies precedes(
        (#[trigger] widgets[i]).label@,
        (#[trigger] widgets[j]).label@,
    ) by {
        assert(widget_from(render, release, config, picks[i], widgets[i]));
        assert(widget_from(render, release, config, picks[j], widgets[j]));
    }
    assert forall|i: int, j: int|
        0 <= i < widgets.len() && 0 <= j < widgets.len() && i != j implies
        (#[trigger] widgets[i]).label@ != (#[trigger] widgets[j]).label@ by {
        lemma_precedes_irreflexive(widgets[i].label@);
        if i < j {
            assert(precedes(widgets[i].label@, widgets[j].label@));
        } else {
            assert(precedes(widgets[j].label@, widgets[i].label@));
        }
    }
}

/// Where no two runnable installers share a label, `scripts` returns as many
/// widgets as the release has runnable installers.
pub proof fn lemma_widgets_counted<C, S>(
    render: S,
    release: &Release,
    config: &C,
    widgets: Vec<ScriptWidget>,
) where S: Fn(&String, &String, &Release, &C) -> Result<Fragment, RenderError>
    requires
        scripts_outcome(render, release, config, Ok(widgets)),
        runnable_labels_distinct(release.installers@),
    ensures
        widgets.len() == runnable_positions(release.installers@).len(),
{
    let picks = lemma_rendered_selection(render, release, config, widgets);
    lemma_distinct_labels_all_selected(release.installers@, picks);
}

/// The label of a runnable installer heads exactly one of the widgets that
/// `scripts` returns, however many runnable installers carry it: widget `at`
/// has it, and no other widget does.
pub proof fn lemma_one_widget_per_label<C, S>(
    render: S,
    release: &Release,
    config: &C,
    widgets: Vec<ScriptWidget>,
    a: int,
) -> (at: int) where S: Fn(&String, &String, &Release, &C) -> Result<Fragment, RenderError>
    requires
        scripts_outcome(render, release, config, Ok(widgets)),
        runnable_at(release.installers@, a),
    ensures
        0 <= at < widgets.len(),
        widgets[at].label@ == label_at(release.installers@, a),
        forall|i: int|
            0 <= i < widgets.len() && (#[trigger] widgets[i]).label@ == label_at(
                release.installers@,
                a,
            ) ==> i == at,
{
    let picks = lemma_rendered_selection(render, release, config, widgets);
    let at = lemma_one_entry_per_label(release.installers@, picks, a);
    assert(widget_from(render, release, config, picks[at], widgets[at]));
    assert forall|i: int|
        0 <= i < widgets.len() && (#[trigger] widgets[i]).label@ == label_at(
            release.installers@,
            a,
        ) implies i == at by {
        assert(widget_from(render, release, config, picks[i], widgets[i]));
    }
    at
}

/// For a release without a runnable installer `scripts` returns no widget,
/// and does not fail.
pub proof fn lemma_scripts_without_runnable<C, S>(
    render: S,
    release: &Release,
    config: &C,
    result: Result<Vec<ScriptWidget>, RenderError>,
) where S: Fn(&String, &String, &Release, &C) -> Result<Fragment, RenderError>
    requires
        forall|j: int| !runnable_at(release.installers@, j),
        scripts_outcome(render, release, config, result),
    ensures
        result matches Ok(widgets) && widgets.len() == 0,
{
    let picks = choose|picks: Seq<int>| #[trigger]
        is_selection(release.installers@, picks) && match result {
            Ok(widgets) => scripts_rendered(render, release, config, picks, widgets@),
            Err(error) => exists|i: int| #[trigger]
                failed_at(render, release, config, picks, i, error),
        };
    if picks.len() > 0 {
        assert(survives(release.installers@, picks[0]));
    }
}

/// For a release without a runnable installer `page` rests on the table
/// renderer alone: it returns the section with an empty script region before
/// the table region, and fails only with a failure of the table renderer. So
/// it never fails where the table renderer never does.
pub proof fn lemma_page_without_scripts<C, S, T>(
    render_run_script: S,
    render_table: T,
    release: &Release,
    config: &C,
    result: Result<String, RenderError>,
) where
    S: Fn(&String, &String, &Release, &C) -> Result<Fragment, RenderError>,
    T: Fn(&Release, &C) -> Result<Fragment, RenderError>,

    requires
        forall|j: int| !runnable_at(release.installers@, j),
        page_outcome(render_run_script, render_table, release, config, result),
    ensures
        match result {
            Ok(page) => exists|table: Fragment| #[trigger]
                render_table.ensures((release, config), Ok(table)) && page@ == page_markup(
                    Seq::empty(),
                    table@,
                ),
            Err(error) => render_table.ensures((release, config), Err(error)),
        },
        (forall|error: RenderError| !render_table.ensures((release, config), Err(error)))
            ==> result is Ok,
{
    match result {
        Ok(page) => {
            let (widgets, table) = choose|widgets: Vec<ScriptWidget>, table: Fragment|
                {
                    &&& #[trigger] scripts_outcome(render_run_script, release, config, Ok(widgets))
                    &&& #[trigger] render_table.ensures((release, config), Ok(table))
                    &&& page@ == page_markup(widget_markups(widgets@), table@)
                };
            lemma_scripts_without_runnable(render_run_script, release, config, Ok(widgets));
            assert(widget_markups(widgets@) =~= Seq::empty());
        },
        Err(error) => {
            if scripts_outcome(render_run_script, release, config, Err(error)) {
                lemma_scripts_without_runnable(render_run_script, release, config, Err(error));
            }
        },
    }
}

} // verus!
