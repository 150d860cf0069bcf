use file_finder::occurrence::Occurrence;
use file_finder::output_strategies::{ConsoleOutput, Abort, FileOutput, OutputStrategy, Step,
    FAILURE_STATUS};

fn entries() -> Vec<Occurrence> {
    vec![
        Occurrence::PlainFile("a.bin".to_string()),
        Occurrence::Directory("c".to_string()),
        Occurrence::TextFile("b.txt".to_string()),
    ]
}

#[test]
fn console_prints_one_line_for_each_entry() {
    assert_eq!(
        ConsoleOutput.output(&entries()),
        vec![
            Step::Print("PlainFile(\"a.bin\")".to_string()),
            Step::Print("Directory(\"c\")".to_string()),
            Step::Print("TextFile(\"b.txt\")".to_string()),
        ]
    );
}

#[test]
fn console_prints_nothing_for_no_entries() {
    assert_eq!(ConsoleOutput.output(&[]), vec![]);
}

#[test]
fn file_is_created_and_then_written_line_by_line() {
    assert_eq!(
        FileOutput::new("out/list.txt").output(&entries()),
        vec![
            Step::Create("out/list.txt".to_string()),
            Step::Write("PlainFile(\"a.bin\")".to_string()),
            Step::Write("Directory(\"c\")".to_string()),
            Step::Write("TextFile(\"b.txt\")".to_string()),
        ]
    );
}

#[test]
fn file_is_created_for_no_entries_too() {
    assert_eq!(
        FileOutput::new("output.txt").output(&[]),
        vec![Step::Create("output.txt".to_string())]
    );
}

#[test]
fn file_output_keeps_its_file_name() {
    assert_eq!(FileOutput::new("output.txt").file_name(), "output.txt");
    assert_eq!(FileOutput::new("").file_name(), "");
}

#[test]
fn file_that_cannot_be_created_ends_the_program_with_status_one() {
    let steps = FileOutput::new("missing_dir/output.txt").output(&entries());
    let failure = steps[0].failed("No such file or directory (os error 2)");
    assert_eq!(
        failure,
        Some(Abort {
            message:
                "Error creating file missing_dir/output.txt: No such file or directory (os error 2)"
                    .to_string(),
            status: 1,
        })
    );
}

#[test]
fn line_that_cannot_be_written_ends_the_program_with_status_one() {
    let steps = FileOutput::new("output.txt").output(&entries());
    let failure = steps[2].failed("No space left on device (os error 28)");
    assert_eq!(
        failure,
        Some(Abort {
            message: "Error writing to file: No space left on device (os error 28)".to_string(),
            status: 1,
        })
    );
}

#[test]
fn console_lays_down_no_measure_for_a_failure() {
    let steps = ConsoleOutput.output(&entries());
    assert_eq!(steps[0].failed("Broken pipe (os error 32)"), None);
}

#[test]
fn failure_status_is_one() {
    assert_eq!(FAILURE_STATUS, 1);
}

#[test]
fn strategies_behind_one_interface() {
    let file = FileOutput::new("output.txt");
    let strategies: Vec<&dyn OutputStrategy> = vec![&ConsoleOutput, &file];
    let lengths: Vec<usize> = strategies.iter().map(|s| s.output(&entries()).len()).collect();
    assert_eq!(lengths, vec![3, 4]);
}
