use bncsv::cli::{effective_worker_count, partition_tasks, Cli, FormatType, RunMode, Task};
use bncsv::errors::BncsvError;
use bncsv::paths::{default_path, shorten_path};
use bncsv::utf8::{BnCsvConverter, Utf8Converter};

fn cli(
    paths: Vec<Vec<u8>>,
    input_type: FormatType,
    output: Option<Vec<u8>>,
    abs_pathbase: Option<Vec<u8>>,
    pipe: bool,
    jobs: Option<usize>,
) -> Cli {
    Cli { paths, input_type, output, abs_pathbase, pipe, jobs }
}

fn tasks_of(n: usize) -> Vec<Task> {
    (0..n)
        .map(|i| Task {
            input_path: format!("in/{}.csv", i).into_bytes(),
            output_path: format!("out/{}.bncsv", i).into_bytes(),
        })
        .collect()
}

#[test]
fn test_partition_round_robin() {
    // Ten tasks over three workers: task i goes to worker i mod 3, and
    // every task is assigned exactly once.
    let tasks = tasks_of(10);
    let queues = partition_tasks(&tasks, 3);
    assert_eq!(queues.len(), 3);
    assert_eq!(queues[0].len(), 4);
    assert_eq!(queues[1].len(), 3);
    assert_eq!(queues[2].len(), 3);
    let mut seen: usize = 0;
    for (w, queue) in queues.iter().enumerate() {
        for (k, task) in queue.iter().enumerate() {
            let i = k * 3 + w;
            assert_eq!(task.input_path, tasks[i].input_path);
            assert_eq!(task.output_path, tasks[i].output_path);
            seen += 1;
        }
    }
    assert_eq!(seen, 10);
}

#[test]
fn test_partition_more_workers_than_tasks() {
    let tasks = tasks_of(2);
    let queues = partition_tasks(&tasks, 2);
    assert_eq!(queues.len(), 2);
    assert_eq!(queues[0].len(), 1);
    assert_eq!(queues[1].len(), 1);
}

#[test]
fn test_effective_worker_count() {
    assert_eq!(effective_worker_count(None, 4, 10), 4);
    assert_eq!(effective_worker_count(None, 16, 10), 10);
    assert_eq!(effective_worker_count(Some(0), 4, 10), 1);
    assert_eq!(effective_worker_count(Some(3), 4, 10), 3);
    assert_eq!(effective_worker_count(Some(16), 4, 10), 10);
}

#[test]
fn test_overwrite_guard() {
    let c = cli(Vec::new(), FormatType::Csv, None, None, false, None);
    let tasks = tasks_of(3);
    assert_eq!(
        c.validate_multithreaded_tasks_paths(&tasks, &vec![false, true, false]),
        Err(BncsvError::OverwritePrevented)
    );
    assert_eq!(c.validate_multithreaded_tasks_paths(&tasks, &vec![false, false, false]), Ok(()));
}

#[test]
fn test_build_tasks_and_output_paths() {
    let c = cli(
        Vec::new(),
        FormatType::Csv,
        Some(b"out".to_vec()),
        None,
        false,
        None,
    );
    let inputs = vec![b"a/b.csv".to_vec(), b"c.csv".to_vec()];
    let tasks = c.build_tasks(&inputs).unwrap();
    assert_eq!(tasks.len(), 2);
    assert_eq!(tasks[0].input_path, b"a/b.csv".to_vec());
    assert_eq!(tasks[0].output_path, b"out/a/b.bncsv".to_vec());
    assert_eq!(tasks[1].output_path, b"out/c.bncsv".to_vec());
}

#[test]
fn test_absolute_input_needs_base() {
    let c = cli(
        Vec::new(),
        FormatType::Csv,
        Some(b"out".to_vec()),
        None,
        false,
        None,
    );
    assert_eq!(
        c.derive_output_path(&b"/data/a.csv".to_vec()),
        Err(BncsvError::ConfigurationError)
    );
    let with_base = cli(
        Vec::new(),
        FormatType::Csv,
        Some(b"out".to_vec()),
        Some(b"/data".to_vec()),
        false,
        None,
    );
    assert_eq!(
        with_base.derive_output_path(&b"/data/a.csv".to_vec()),
        Ok(b"out/a.bncsv".to_vec())
    );
    assert_eq!(
        with_base.derive_output_path(&b"/elsewhere/a.csv".to_vec()),
        Err(BncsvError::ConfigurationError)
    );
}

#[test]
fn test_decode_direction_extension() {
    let c = cli(Vec::new(), FormatType::Bncsv, None, None, false, None);
    assert_eq!(c.derive_output_path(&b"x/y.bncsv".to_vec()), Ok(b"x/y.csv".to_vec()));
}

#[test]
fn test_default_path() {
    let r = default_path(None, b"dir/file.csv".to_vec(), &b"bncsv".to_vec());
    assert_eq!(r, b"./file.bncsv".to_vec());
    let given = default_path(
        Some(b"given.out".to_vec()),
        b"dir/file.csv".to_vec(),
        &b"bncsv".to_vec(),
    );
    assert_eq!(given, b"given.out".to_vec());
}

#[test]
fn test_shorten_path() {
    let short = b"a/b.csv".to_vec();
    assert_eq!(shorten_path(&short), short);
    let long: Vec<u8> = std::iter::repeat(b'x').take(80).collect();
    let shown = shorten_path(&long);
    assert_eq!(shown.len(), 53);
    assert_eq!(&shown[..3], b"...");
    assert_eq!(&shown[3..], &long[30..]);
}

#[test]
fn test_from_arg_value() {
    assert_eq!(FormatType::from_arg_value(&b"csv".to_vec()), Ok(FormatType::Csv));
    assert_eq!(FormatType::from_arg_value(&b"CSV".to_vec()), Ok(FormatType::Csv));
    assert_eq!(FormatType::from_arg_value(&b"bncsv".to_vec()), Ok(FormatType::Bncsv));
    assert_eq!(FormatType::from_arg_value(&b"BnCsV".to_vec()), Ok(FormatType::Bncsv));
    assert_eq!(
        FormatType::from_arg_value(&b"tsv".to_vec()),
        Err(BncsvError::ConfigurationError)
    );
}

#[test]
fn test_run_mode() {
    let no_paths = cli(Vec::new(), FormatType::Csv, None, None, false, None);
    assert!(matches!(no_paths.run_mode(0), Err(BncsvError::ConfigurationError)));
    let piped = cli(Vec::new(), FormatType::Csv, None, None, true, None);
    assert!(matches!(piped.run_mode(0), Ok(RunMode::Piped)));
    let one = cli(vec![b"a.csv".to_vec()], FormatType::Csv, None, None, false, None);
    assert!(matches!(one.run_mode(1), Ok(RunMode::Single)));
    assert!(matches!(one.run_mode(3), Ok(RunMode::Multi)));
    assert!(matches!(one.run_mode(0), Err(BncsvError::ConfigurationError)));
    let piped_with_files = cli(vec![b"a.csv".to_vec()], FormatType::Csv, None, None, true, None);
    assert!(matches!(piped_with_files.run_mode(2), Err(BncsvError::ConfigurationError)));
}

#[test]
fn test_write_to_output_dispatch() {
    let enc = cli(Vec::new(), FormatType::Csv, None, None, true, None);
    let dec = cli(Vec::new(), FormatType::Bncsv, None, None, true, None);
    let input = b"7,8\n".to_vec();
    let (bytes, err) = enc.write_to_output(&input);
    assert!(err.is_none());
    assert_eq!(bytes, Utf8Converter::encode(&input).0);
    let (back, derr) = dec.write_to_output(&bytes);
    assert!(derr.is_none());
    assert_eq!(back, input);
}
