use artifacts_page::{
    header, header_for_release, page, scripts, Context, DisplayPreference, Fragment,
    InstallMethod, Installer, Release, RenderError,
};
use std::cell::{Cell, RefCell};

/// The configuration that the tests hand through to their renderers.
#[derive(Debug, PartialEq)]
struct Theme {
    name: String,
}

fn theme() -> Theme {
    Theme { name: "dark".to_string() }
}

fn run(label: &str, display: DisplayPreference, file: &str, hint: &str) -> Installer {
    Installer {
        label: label.to_string(),
        display,
        method: InstallMethod::Run { file: file.to_string(), run_hint: hint.to_string() },
    }
}

fn package(label: &str, display: DisplayPreference) -> Installer {
    Installer { label: label.to_string(), display, method: InstallMethod::PackageManager }
}

const SHOWN: DisplayPreference = DisplayPreference::Shown;
const HIDDEN: DisplayPreference = DisplayPreference::Hidden;

fn release(installers: Vec<Installer>) -> Release {
    Release { installers }
}

fn context(releases: Vec<Release>) -> Context {
    Context { releases }
}

fn failure(message: &str) -> RenderError {
    RenderError { message: message.to_string() }
}

fn render_script(
    file: &String,
    hint: &String,
    _release: &Release,
    config: &Theme,
) -> Result<Fragment, RenderError> {
    Ok(Fragment { markup: format!("<pre class=\"{}\">{} {}</pre>", config.name, hint, file) })
}

fn render_table(release: &Release, config: &Theme) -> Result<Fragment, RenderError> {
    Ok(Fragment {
        markup: format!("<table class=\"{}\">{} rows</table>", config.name, release.installers.len()),
    })
}

fn render_header(release: &Release, config: &Theme) -> Result<Fragment, RenderError> {
    Ok(Fragment {
        markup: format!("<div class=\"{}\">{} ways</div>", config.name, release.installers.len()),
    })
}

fn fail_script(
    file: &String,
    _hint: &String,
    _release: &Release,
    _config: &Theme,
) -> Result<Fragment, RenderError> {
    Err(failure(&format!("cannot render {}", file)))
}

fn fail_table(_release: &Release, _config: &Theme) -> Result<Fragment, RenderError> {
    Err(failure("no table"))
}

fn fail_header(_release: &Release, _config: &Theme) -> Result<Fragment, RenderError> {
    Err(failure("no header"))
}

fn labels(release: &Release) -> Vec<String> {
    scripts(release, &theme(), render_script)
        .unwrap()
        .into_iter()
        .map(|widget| widget.label)
        .collect()
}

#[test]
fn only_the_shown_run_installer_gets_a_script() {
    let release = release(vec![
        run("Shell", SHOWN, "install.sh", "sh"),
        run("Zsh", HIDDEN, "install.zsh", "zsh"),
        package("Winget", SHOWN),
    ]);
    let widgets = scripts(&release, &theme(), render_script).unwrap();
    assert_eq!(widgets.len(), 1);
    assert_eq!(widgets[0].label, "Shell");
    assert_eq!(
        widgets[0].fragment.markup,
        "<div><h3>Shell</h3><pre class=\"dark\">sh install.sh</pre></div>"
    );
}

#[test]
fn scripts_are_ordered_by_label() {
    let release =
        release(vec![run("B", SHOWN, "b.sh", "sh"), run("A", SHOWN, "a.sh", "sh")]);
    assert_eq!(labels(&release), vec!["A", "B"]);
}

#[test]
fn page_of_no_release_is_empty() {
    assert_eq!(page(&context(vec![]), &theme(), render_script, render_table), Ok(String::new()));
}

#[test]
fn header_of_no_release_is_an_empty_container() {
    assert_eq!(
        header(&context(vec![]), &theme(), render_header),
        Ok(Fragment { markup: "<div></div>".to_string() })
    );
}

#[test]
fn no_release_calls_no_renderer() {
    assert_eq!(page(&context(vec![]), &theme(), fail_script, fail_table), Ok(String::new()));
    assert_eq!(
        header(&context(vec![]), &theme(), fail_header),
        Ok(Fragment { markup: "<div></div>".to_string() })
    );
}

#[test]
fn page_without_runnable_installers_has_an_empty_script_region() {
    let releases = vec![release(vec![
        run("Zsh", HIDDEN, "install.zsh", "zsh"),
        package("Winget", SHOWN),
    ])];
    assert_eq!(
        page(&context(releases), &theme(), fail_script, render_table),
        Ok("<div><div class=\"package-managers-downloads\"></div>\
            <div><table class=\"dark\">2 rows</table></div></div>"
            .to_string())
    );
}

#[test]
fn page_of_a_release_without_installers() {
    assert_eq!(
        page(&context(vec![release(vec![])]), &theme(), fail_script, render_table),
        Ok("<div><div class=\"package-managers-downloads\"></div>\
            <div><table class=\"dark\">0 rows</table></div></div>"
            .to_string())
    );
}

#[test]
fn page_holds_the_scripts_and_then_the_table() {
    let releases = vec![release(vec![
        run("Shell", SHOWN, "install.sh", "sh"),
        package("Winget", SHOWN),
        run("PowerShell", SHOWN, "install.ps1", "powershell"),
    ])];
    assert_eq!(
        page(&context(releases), &theme(), render_script, render_table),
        Ok("<div><div class=\"package-managers-downloads\">\
            <div><h3>PowerShell</h3><pre class=\"dark\">powershell install.ps1</pre></div>\
            <div><h3>Shell</h3><pre class=\"dark\">sh install.sh</pre></div>\
            </div><div><table class=\"dark\">3 rows</table></div></div>"
            .to_string())
    );
}

#[test]
fn page_shows_the_latest_release_only() {
    let releases = vec![
        release(vec![run("New", SHOWN, "new.sh", "sh")]),
        release(vec![run("Old", SHOWN, "old.sh", "sh"), package("Older", SHOWN)]),
    ];
    assert_eq!(
        page(&context(releases), &theme(), render_script, render_table),
        Ok("<div><div class=\"package-managers-downloads\">\
            <div><h3>New</h3><pre class=\"dark\">sh new.sh</pre></div>\
            </div><div><table class=\"dark\">1 rows</table></div></div>"
            .to_string())
    );
}

#[test]
fn latest_release_is_the_first_one() {
    let newest = release(vec![run("New", SHOWN, "new.sh", "sh")]);
    let oldest = release(vec![]);
    let known = context(vec![newest.clone(), oldest]);
    assert_eq!(known.latest(), Some(&newest));
    assert_eq!(context(vec![]).latest(), None);
}

#[test]
fn hidden_installers_get_no_script() {
    let release = release(vec![
        run("Fish", HIDDEN, "install.fish", "fish"),
        run("Shell", SHOWN, "install.sh", "sh"),
        package("Brew", HIDDEN),
        run("Zsh", HIDDEN, "install.zsh", "zsh"),
    ]);
    assert_eq!(labels(&release), vec!["Shell"]);
}

#[test]
fn installers_that_do_not_run_a_file_get_no_script() {
    let release = release(vec![
        package("Brew", SHOWN),
        run("Shell", SHOWN, "install.sh", "sh"),
        package("Winget", SHOWN),
    ]);
    assert_eq!(labels(&release), vec!["Shell"]);
}

#[test]
fn distinct_labels_give_one_script_each_in_rising_order() {
    let release = release(vec![
        run("npm", SHOWN, "npm.sh", "sh"),
        run("Shell", SHOWN, "install.sh", "sh"),
        package("Brew", SHOWN),
        run("PowerShell", SHOWN, "install.ps1", "powershell"),
        run("Zsh", HIDDEN, "install.zsh", "zsh"),
        run("Fish", SHOWN, "install.fish", "fish"),
    ]);
    let shown = labels(&release);
    assert_eq!(shown, vec!["Fish", "PowerShell", "Shell", "npm"]);
    assert!(shown.windows(2).all(|pair| pair[0] < pair[1]));
    assert_eq!(shown.len(), release.installers.iter().filter(|i| i.is_runnable()).count());
}

#[test]
fn shared_label_gives_exactly_one_script() {
    let release = release(vec![
        run("Shell", SHOWN, "linux.sh", "sh"),
        run("Other", SHOWN, "other.sh", "sh"),
        run("Shell", SHOWN, "macos.sh", "sh"),
    ]);
    let shown = labels(&release);
    assert_eq!(shown.iter().filter(|label| *label == "Shell").count(), 1);
    assert_eq!(shown, vec!["Other", "Shell"]);
}

#[test]
fn shared_label_shows_the_last_installer() {
    let release = release(vec![
        run("Shell", SHOWN, "linux.sh", "sh"),
        run("Shell", SHOWN, "macos.sh", "bash"),
        run("Shell", HIDDEN, "hidden.sh", "sh"),
    ]);
    let widgets = scripts(&release, &theme(), render_script).unwrap();
    assert_eq!(widgets.len(), 1);
    assert_eq!(
        widgets[0].fragment.markup,
        "<div><h3>Shell</h3><pre class=\"dark\">bash macos.sh</pre></div>"
    );
}

#[test]
fn no_runnable_installer_gives_no_script_and_no_failure() {
    let release = release(vec![package("Brew", SHOWN), run("Zsh", HIDDEN, "z.sh", "zsh")]);
    assert_eq!(scripts(&release, &theme(), fail_script), Ok(vec![]));
    assert_eq!(scripts(&Release { installers: vec![] }, &theme(), fail_script), Ok(vec![]));
}

#[test]
fn script_renderer_gets_the_run_method_the_release_and_the_config() {
    let release = release(vec![
        run("B", SHOWN, "b.sh", "bash"),
        package("P", SHOWN),
        run("A", SHOWN, "a.sh", "sh"),
    ]);
    let config = theme();
    let seen = RefCell::new(Vec::new());
    let widgets = scripts(&release, &config, |file: &String, hint: &String, r: &Release, c: &Theme| {
        seen.borrow_mut().push((file.clone(), hint.clone()));
        assert_eq!(r, &release);
        assert_eq!(c, &config);
        Ok(Fragment { markup: String::new() })
    });
    assert_eq!(widgets.unwrap().len(), 2);
    assert_eq!(
        seen.into_inner(),
        vec![("a.sh".to_string(), "sh".to_string()), ("b.sh".to_string(), "bash".to_string())]
    );
}

#[test]
fn first_script_failure_ends_the_work() {
    let release = release(vec![
        run("C", SHOWN, "c.sh", "sh"),
        run("B", SHOWN, "b.sh", "sh"),
        run("A", SHOWN, "a.sh", "sh"),
        run("D", SHOWN, "d.sh", "sh"),
    ]);
    let calls = Cell::new(0);
    let result = scripts(&release, &theme(), |file: &String, _: &String, _: &Release, _: &Theme| {
        calls.set(calls.get() + 1);
        if file == "a.sh" {
            Ok(Fragment { markup: String::new() })
        } else {
            Err(failure(file))
        }
    });
    assert_eq!(result, Err(failure("b.sh")));
    assert_eq!(calls.get(), 2);
}

#[test]
fn page_hands_on_a_script_failure_and_renders_no_table() {
    let releases = vec![release(vec![run("Shell", SHOWN, "install.sh", "sh")])];
    let tables = Cell::new(0);
    let result = page(&context(releases), &theme(), fail_script, |r: &Release, c: &Theme| {
        tables.set(tables.get() + 1);
        render_table(r, c)
    });
    assert_eq!(result, Err(failure("cannot render install.sh")));
    assert_eq!(tables.get(), 0);
}

#[test]
fn page_hands_on_a_table_failure() {
    let releases = vec![release(vec![run("Shell", SHOWN, "install.sh", "sh")])];
    assert_eq!(
        page(&context(releases), &theme(), render_script, fail_table),
        Err(failure("no table"))
    );
    assert_eq!(
        page(&context(vec![release(vec![])]), &theme(), render_script, fail_table),
        Err(failure("no table"))
    );
}

#[test]
fn header_of_a_release_is_what_the_renderer_returns() {
    let given = release(vec![package("Brew", SHOWN), run("Shell", SHOWN, "install.sh", "sh")]);
    assert_eq!(
        header_for_release(&given, &theme(), render_header),
        Ok(Fragment { markup: "<div class=\"dark\">2 ways</div>".to_string() })
    );
    assert_eq!(header_for_release(&given, &theme(), fail_header), Err(failure("no header")));
}

#[test]
fn header_is_built_for_the_latest_release() {
    let known = context(vec![release(vec![package("Brew", SHOWN)]), release(vec![])]);
    assert_eq!(
        header(&known, &theme(), render_header),
        Ok(Fragment { markup: "<div class=\"dark\">1 ways</div>".to_string() })
    );
    assert_eq!(header(&known, &theme(), fail_header), Err(failure("no header")));
}

#[test]
fn labels_are_escaped_in_the_page() {
    let releases = vec![release(vec![run("C & <C++>", SHOWN, "c.sh", "sh")])];
    assert_eq!(
        page(&context(releases), &theme(), render_script, render_table),
        Ok("<div><div class=\"package-managers-downloads\">\
            <div><h3>C &amp; &lt;C++&gt;</h3><pre class=\"dark\">sh c.sh</pre></div>\
            </div><div><table class=\"dark\">1 rows</table></div></div>"
            .to_string())
    );
}
