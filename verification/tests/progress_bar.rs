use hyperfine::benchmark::plan::ProgressTask;
use hyperfine::options::OutputStyleOption;
use hyperfine::output::progress_bar::{
    get_multi_progress_bar, get_progress_bar, BarStyle, CommandBarLayout,
};

#[test]
fn a_bar_is_hidden_without_interactive_output() {
    for style in [OutputStyleOption::Basic, OutputStyleOption::Color] {
        let bar = get_progress_bar(7, ProgressTask::WarmupRuns.message(), style);
        assert_eq!(bar.style, BarStyle::Hidden);
        assert_eq!(bar.length, None);
        assert_eq!(bar.message, "Performing warmup runs");
        assert_eq!(bar.style.template(), None);
    }
}

#[test]
fn a_bar_is_a_spinner_otherwise() {
    for style in [
        OutputStyleOption::Full,
        OutputStyleOption::NoColor,
        OutputStyleOption::Disabled,
    ] {
        let bar = get_progress_bar(7, ProgressTask::InitialMeasurement.message(), style);
        assert_eq!(bar.style, BarStyle::Spinner);
        assert_eq!(bar.length, Some(7));
        assert_eq!(bar.message, "Initial time measurement");
        assert_eq!(
            bar.style.template(),
            Some(" {spinner} {msg:<30} {wide_bar} ETA {eta_precise} ")
        );
    }
}

#[test]
fn each_command_has_a_bar_of_its_own() {
    let bar = |command: usize| CommandBarLayout {
        style: BarStyle::Counter,
        length: 9,
        command,
    };
    for style in [OutputStyleOption::Full, OutputStyleOption::NoColor] {
        assert_eq!(
            get_multi_progress_bar(3, 9, style),
            Some(vec![bar(1), bar(2), bar(3)])
        );
    }
    assert_eq!(
        bar(1).style.template(),
        Some("  {msg:<31} {wide_bar} {pos:>3}/{len:3}")
    );
}

#[test]
fn no_command_has_a_bar_without_interactive_output() {
    for style in [
        OutputStyleOption::Basic,
        OutputStyleOption::Color,
        OutputStyleOption::Disabled,
    ] {
        assert_eq!(get_multi_progress_bar(3, 9, style), None);
    }
}
