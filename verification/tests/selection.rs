use artifacts_page::selection::select_runnable;
use artifacts_page::{DisplayPreference, InstallMethod, Installer};

fn run(label: &str, display: DisplayPreference, file: &str) -> Installer {
    Installer {
        label: label.to_string(),
        display,
        method: InstallMethod::Run { file: file.to_string(), run_hint: "sh".to_string() },
    }
}

fn package(label: &str, display: DisplayPreference) -> Installer {
    Installer { label: label.to_string(), display, method: InstallMethod::PackageManager }
}

const SHOWN: DisplayPreference = DisplayPreference::Shown;
const HIDDEN: DisplayPreference = DisplayPreference::Hidden;

#[test]
fn shown_run_installer_is_runnable() {
    assert!(run("Shell", SHOWN, "install.sh").is_runnable());
}

#[test]
fn hidden_run_installer_is_not_runnable() {
    assert!(!run("Shell", HIDDEN, "install.sh").is_runnable());
}

#[test]
fn package_manager_installer_is_not_runnable() {
    assert!(!package("Winget", SHOWN).is_runnable());
    assert!(!package("Winget", HIDDEN).is_runnable());
}

#[test]
fn nothing_is_selected_from_no_installers() {
    assert_eq!(select_runnable(&vec![]), Vec::<usize>::new());
}

#[test]
fn nothing_is_selected_when_none_is_runnable() {
    let installers = vec![
        run("Shell", HIDDEN, "install.sh"),
        package("Winget", SHOWN),
        package("Brew", HIDDEN),
    ];
    assert_eq!(select_runnable(&installers), Vec::<usize>::new());
}

#[test]
fn hidden_installers_are_never_selected() {
    let installers = vec![
        run("Zsh", HIDDEN, "install.zsh"),
        run("Shell", SHOWN, "install.sh"),
        package("Brew", HIDDEN),
        run("Fish", HIDDEN, "install.fish"),
    ];
    assert_eq!(select_runnable(&installers), vec![1]);
}

#[test]
fn only_run_installers_are_selected() {
    let installers = vec![
        package("Winget", SHOWN),
        run("Shell", SHOWN, "install.sh"),
        package("Brew", SHOWN),
    ];
    assert_eq!(select_runnable(&installers), vec![1]);
}

#[test]
fn selection_is_ordered_by_label() {
    let installers = vec![
        run("PowerShell", SHOWN, "install.ps1"),
        run("Shell", SHOWN, "install.sh"),
        run("Fish", SHOWN, "install.fish"),
        run("bash", SHOWN, "install.bash"),
    ];
    assert_eq!(select_runnable(&installers), vec![2, 0, 1, 3]);
}

#[test]
fn distinct_labels_select_every_runnable_installer() {
    let installers = vec![
        run("d", SHOWN, "d.sh"),
        package("e", SHOWN),
        run("b", SHOWN, "b.sh"),
        run("c", HIDDEN, "c.sh"),
        run("a", SHOWN, "a.sh"),
    ];
    let picks = select_runnable(&installers);
    assert_eq!(picks, vec![4, 2, 0]);
    assert_eq!(picks.len(), installers.iter().filter(|i| i.is_runnable()).count());
}

#[test]
fn shared_label_keeps_the_last_installer() {
    let installers = vec![
        run("Shell", SHOWN, "first.sh"),
        run("Fish", SHOWN, "install.fish"),
        run("Shell", SHOWN, "second.sh"),
    ];
    assert_eq!(select_runnable(&installers), vec![1, 2]);
}

#[test]
fn shared_label_ignores_installers_that_are_not_runnable() {
    let installers = vec![
        run("Shell", SHOWN, "first.sh"),
        run("Shell", HIDDEN, "second.sh"),
        package("Shell", SHOWN),
    ];
    assert_eq!(select_runnable(&installers), vec![0]);
}

#[test]
fn label_shared_by_many_is_selected_once() {
    let installers = vec![
        run("x", SHOWN, "1.sh"),
        run("x", SHOWN, "2.sh"),
        run("a", SHOWN, "3.sh"),
        run("x", SHOWN, "4.sh"),
        run("a", SHOWN, "5.sh"),
        run("x", SHOWN, "6.sh"),
    ];
    assert_eq!(select_runnable(&installers), vec![4, 5]);
}

#[test]
fn selection_inserts_at_front_middle_and_back() {
    let installers = vec![
        run("m", SHOWN, "m.sh"),
        run("a", SHOWN, "a.sh"),
        run("z", SHOWN, "z.sh"),
        run("n", SHOWN, "n.sh"),
    ];
    assert_eq!(select_runnable(&installers), vec![1, 0, 3, 2]);
}

#[test]
fn selection_agrees_with_a_map_keyed_by_label() {
    let labels = ["a", "b", "B", "ab", "", "z", "\u{e9}"];
    let mut state: u64 = 0x2545_f491_4f6c_dd1d;
    for round in 0..200 {
        let mut installers = Vec::new();
        for _ in 0..(round % 9) {
            state = state.wrapping_mul(6364136223846793005).wrapping_add(1442695040888963407);
            let label = labels[((state >> 33) % labels.len() as u64) as usize];
            let display = if (state >> 20) % 4 == 0 { HIDDEN } else { SHOWN };
            if (state >> 10) % 5 == 0 {
                installers.push(package(label, display));
            } else {
                installers.push(run(label, display, "install.sh"));
            }
        }
        let mut by_label = std::collections::BTreeMap::new();
        for (position, installer) in installers.iter().enumerate() {
            if installer.is_runnable() {
                by_label.insert(installer.label.clone(), position);
            }
        }
        let expected: Vec<usize> = by_label.into_values().collect();
        assert_eq!(select_runnable(&installers), expected, "{:?}", installers);
    }
}
