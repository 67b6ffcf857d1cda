//! The planning logic of the batch conversion pipeline: task construction
//! with output-path derivation, overwrite validation, worker-count
//! selection, round-robin partitioning, and the dispatch of the codec by
//! the configured direction.

use vstd::prelude::*;

use crate::compr::encode_post;
use crate::errors::BncsvError;
use crate::paths::{
    copy_range, is_relative, is_relative_path, join, path_join, set_extension, strip_prefix,
    strip_prefix_of, with_extension,
};
use crate::utf8::{decode_post, BnCsvConverter, Utf8Converter};

verus! {

/// The direction of a conversion: which format the input files are in.
#[derive(PartialEq, Eq, Structural, Debug, Clone, Copy)]
pub enum FormatType {
    Csv,
    Bncsv,
}

/// One file conversion: an input path and the output path derived for it,
/// both as byte paths.
pub struct Task {
    pub input_path: Vec<u8>,
    pub output_path: Vec<u8>,
}

/// Mathematical model of a task.
pub struct TaskSpec {
    pub input_path: Seq<u8>,
    pub output_path: Seq<u8>,
}

impl View for Task {
    type V = TaskSpec;

    open spec fn view(&self) -> TaskSpec {
        TaskSpec { input_path: self.input_path@, output_path: self.output_path@ }
    }
}

/// The batch configuration: resolved input paths, the direction, and the
/// optional output directory, rebasing root, pipe switch and job count.
pub struct Cli {
    pub paths: Vec<Vec<u8>>,
    pub input_type: FormatType,
    pub output: Option<Vec<u8>>,
    pub abs_pathbase: Option<Vec<u8>>,
    pub pipe: bool,
    pub jobs: Option<usize>,
}

/// The view of an optional byte path.
pub open spec fn opt_path_view(p: Option<Vec<u8>>) -> Option<Seq<u8>> {
    match p {
        Some(v) => Some(v@),
        None => None,
    }
}

/// The ASCII-lowercased bytes of a sequence.
pub open spec fn ascii_lower(s: Seq<u8>) -> Seq<u8> {
    s.map_values(|b: u8| (if 65 <= b && b <= 90 { (b + 32) as u8 } else { b }))
}

impl FormatType {
    /// Parses a format name, ignoring ASCII case: `csv` or `bncsv`.
    pub fn from_arg_value(value: &Vec<u8>) -> (r: Result<FormatType, BncsvError>)
        ensures
            r == Ok::<FormatType, BncsvError>(FormatType::Csv) <==> ascii_lower(value@) == seq![
                99u8,
                115u8,
                118u8,
            ],
            r == Ok::<FormatType, BncsvError>(FormatType::Bncsv) <==> ascii_lower(value@) == seq![
                98u8,
                110u8,
                99u8,
                115u8,
                118u8,
            ],
            r is Err ==> r == Err::<FormatType, BncsvError>(BncsvError::ConfigurationError),
    {
        let mut low: Vec<u8> = Vec::new();
        let mut k: usize = 0;
        while k < value.len()
            invariant
                k <= value@.len(),
                low@ == ascii_lower(value@.take(k as int)),
            decreases value.len() - k,
        {
            let b = value[k];
            let l: u8 = if 65 <= b && b <= 90 {
                b + 32
            } else {
                b
            };
            proof {
                assert(low@.push(l) =~= ascii_lower(value@.take(k + 1)));
            }
            low.push(l);
            k += 1;
        }
        proof {
            assert(value@.take(value@.len() as int) =~= value@);
        }
        let csv: Vec<u8> = vec![99u8, 115u8, 118u8];
        let bncsv: Vec<u8> = vec![98u8, 110u8, 99u8, 115u8, 118u8];
        proof {
            assert(csv@ =~= seq![99u8, 115u8, 118u8]);
            assert(bncsv@ =~= seq![98u8, 110u8, 99u8, 115u8, 118u8]);
        }
        if crate::paths::eq_bytes(&low, &csv) {
            Ok(FormatType::Csv)
        } else if crate::paths::eq_bytes(&low, &bncsv) {
            Ok(FormatType::Bncsv)
        } else {
            Err(BncsvError::ConfigurationError)
        }
    }

    /// The file extension the direction writes.
    pub fn target_extension(&self) -> (r: Vec<u8>)
        ensures
            self == FormatType::Csv ==> r@ == seq![98u8, 110u8, 99u8, 115u8, 118u8],
            self == FormatType::Bncsv ==> r@ == seq![99u8, 115u8, 118u8],
    {
        match self {
            FormatType::Csv => {
                let v: Vec<u8> = vec![98u8, 110u8, 99u8, 115u8, 118u8];
                proof {
                    assert(v@ =~= seq![98u8, 110u8, 99u8, 115u8, 118u8]);
                }
                v
            },
            FormatType::Bncsv => {
                let v: Vec<u8> = vec![99u8, 115u8, 118u8];
                proof {
                    assert(v@ =~= seq![99u8, 115u8, 118u8]);
                }
                v
            },
        }
    }
}

/// The extension written by a direction, as a sequence.
pub open spec fn spec_target_extension(t: FormatType) -> Seq<u8> {
    match t {
        FormatType::Csv => seq![98u8, 110u8, 99u8, 115u8, 118u8],
        FormatType::Bncsv => seq![99u8, 115u8, 118u8],
    }
}

/// Where one input path is written: under the output directory where one
/// is given — an absolute input is first rebased against the rebasing
/// root, which must be given and must prefix the input — and beside the
/// input otherwise; always with the target extension. A missing or
/// non-matching rebasing root for an absolute input is a configuration
/// error.
pub open spec fn spec_output_path(
    input: Seq<u8>,
    input_type: FormatType,
    output: Option<Seq<u8>>,
    base: Option<Seq<u8>>,
) -> Result<Seq<u8>, BncsvError> {
    let ext = spec_target_extension(input_type);
    match output {
        Some(out) => if is_relative_path(input) {
            Ok(with_extension(path_join(out, input), ext))
        } else {
            match base {
                None => Err(BncsvError::ConfigurationError),
                Some(bp) => match strip_prefix(input, bp) {
                    None => Err(BncsvError::ConfigurationError),
                    Some(rest) => Ok(with_extension(path_join(out, rest), ext)),
                },
            }
        },
        None => Ok(with_extension(input, ext)),
    }
}

impl Cli {
    /// Derives the output path of one input path.
    pub fn derive_output_path(&self, input: &Vec<u8>) -> (r: Result<Vec<u8>, BncsvError>)
        ensures
            match r {
                Ok(v) => spec_output_path(
                    input@,
                    self.input_type,
                    opt_path_view(self.output),
                    opt_path_view(self.abs_pathbase),
                ) == Ok::<Seq<u8>, BncsvError>(v@),
                Err(e) => spec_output_path(
                    input@,
                    self.input_type,
                    opt_path_view(self.output),
                    opt_path_view(self.abs_pathbase),
                ) == Err::<Seq<u8>, BncsvError>(e),
            },
    {
        let ext = self.input_type.target_extension();
        match &self.output {
            Some(out) => {
                if is_relative(input) {
                    Ok(set_extension(&join(out, input), &ext))
                } else {
                    match &self.abs_pathbase {
                        None => Err(BncsvError::ConfigurationError),
                        Some(bp) => match strip_prefix_of(input, bp) {
                            None => Err(BncsvError::ConfigurationError),
                            Some(rest) => Ok(set_extension(&join(out, &rest), &ext)),
                        },
                    }
                }
            },
            None => Ok(set_extension(input, &ext)),
        }
    }

    /// Builds the task of every input path, in order; the first input
    /// whose output path cannot be derived fails the whole batch.
    pub fn build_tasks(&self, input_paths: &Vec<Vec<u8>>) -> (r: Result<Vec<Task>, BncsvError>)
        ensures
            match r {
                Ok(tasks) => tasks@.len() == input_paths@.len() && forall|i: int|
                    0 <= i < tasks@.len() ==> (#[trigger] tasks@[i]@).input_path
                        == input_paths@[i]@ && Ok::<Seq<u8>, BncsvError>(tasks@[i]@.output_path)
                        == spec_output_path(
                        input_paths@[i]@,
                        self.input_type,
                        opt_path_view(self.output),
                        opt_path_view(self.abs_pathbase),
                    ),
                Err(e) => exists|i: int|
                    0 <= i < input_paths@.len() && Err::<Seq<u8>, BncsvError>(e)
                        == #[trigger] spec_output_path(
                        input_paths@[i]@,
                        self.input_type,
                        opt_path_view(self.output),
                        opt_path_view(self.abs_pathbase),
                    ),
            },
    {
        let mut tasks: Vec<Task> = Vec::new();
        let mut i: usize = 0;
        while i < input_paths.len()
            invariant
                i <= input_paths@.len(),
                tasks@.len() == i,
                forall|k: int|
                    0 <= k < i ==> (#[trigger] tasks@[k]@).input_path == input_paths@[k]@ && Ok::<
                        Seq<u8>,
                        BncsvError,
                    >(tasks@[k]@.output_path) == spec_output_path(
                        input_paths@[k]@,
                        self.input_type,
                        opt_path_view(self.output),
                        opt_path_view(self.abs_pathbase),
                    ),
            decreases input_paths.len() - i,
        {
            let input = &input_paths[i];
            match self.derive_output_path(input) {
                Ok(out) => {
                    tasks.push(Task { input_path: copy_range(input, 0, input.len()), output_path: out });
                    proof {
                        assert(input_paths@[i as int]@.subrange(0, input_paths@[i as int]@.len() as int)
                            =~= input_paths@[i as int]@);
                    }
                },
                Err(e) => {
                    return Err(e);
                },
            }
            i += 1;
        }
        Ok(tasks)
    }

    /// Checks the overwrite guard: the batch may only run when no task's
    /// output path already exists. `output_exists` holds, for each task,
    /// whether its output path exists.
    pub fn validate_multithreaded_tasks_paths(
        &self,
        tasks: &Vec<Task>,
        output_exists: &Vec<bool>,
    ) -> (r: Result<(), BncsvError>)
        requires
            tasks@.len() == output_exists@.len(),
        ensures
            r is Ok <==> (forall|i: int| 0 <= i < output_exists@.len() ==> !(#[trigger] output_exists@[i])),
            r is Err ==> r == Err::<(), BncsvError>(BncsvError::OverwritePrevented),
    {
        let mut i: usize = 0;
        while i < output_exists.len()
            invariant
                i <= output_exists@.len(),
                forall|k: int| 0 <= k < i ==> !(#[trigger] output_exists@[k]),
            decreases output_exists.len() - i,
        {
            if output_exists[i] {
                return Err(BncsvError::OverwritePrevented);
            }
            i += 1;
        }
        Ok(())
    }

    /// Converts one byte stream in the configured direction: encoding for
    /// CSV input, decoding for BNCSV input.
    pub fn write_to_output(&self, input: &Vec<u8>) -> (r: (Vec<u8>, Option<BncsvError>))
        ensures
            self.input_type == FormatType::Csv ==> encode_post(input@, r.0@, r.1),
            self.input_type == FormatType::Bncsv ==> decode_post(input@, r.0@, r.1),
    {
        match self.input_type {
            FormatType::Csv => Utf8Converter::encode(input),
            FormatType::Bncsv => Utf8Converter::decode(input),
        }
    }
}

/// The worker count a batch runs with: the requested count (at least one)
/// where given, otherwise the hardware parallelism, and never more than
/// the number of tasks.
pub fn effective_worker_count(jobs: Option<usize>, parallelism: usize, n_tasks: usize) -> (r:
    usize)
    requires
        parallelism >= 1,
    ensures
        r == (if (match jobs {
            Some(j) => (if j >= 1 {
                j
            } else {
                1
            }),
            None => parallelism,
        }) < n_tasks {
            (match jobs {
                Some(j) => (if j >= 1 {
                    j
                } else {
                    1
                }),
                None => parallelism,
            })
        } else {
            n_tasks
        }),
        n_tasks >= 1 ==> 1 <= r <= n_tasks,
{
    let wanted = match jobs {
        Some(j) => if j >= 1 {
            j
        } else {
            1
        },
        None => parallelism,
    };
    if wanted < n_tasks {
        wanted
    } else {
        n_tasks
    }
}

/// Copies a task, preserving its view.
pub fn clone_task(t: &Task) -> (r: Task)
    ensures
        r@ == t@,
{
    let r = Task {
        input_path: copy_range(&t.input_path, 0, t.input_path.len()),
        output_path: copy_range(&t.output_path, 0, t.output_path.len()),
    };
    proof {
        assert(r.input_path@ =~= t.input_path@);
        assert(r.output_path@ =~= t.output_path@);
    }
    r
}

/// Partitions the tasks over the workers round robin: the task at index
/// `i` goes to worker `i % n_workers`, and each worker's queue keeps the
/// original relative order. So worker `w` holds, in order, the tasks at
/// indices `w`, `w + n_workers`, `w + 2 n_workers`, and so on.
pub fn partition_tasks(tasks: &Vec<Task>, n_workers: usize) -> (r: Vec<Vec<Task>>)
    requires
        n_workers >= 1,
    ensures
        r@.len() == n_workers,
        forall|w: int, k: int|
            0 <= w < n_workers && 0 <= k < r@[w]@.len() ==> (#[trigger] r@[w]@[k])@ == tasks@[k
                * n_workers + w]@,
        forall|i: int|
            0 <= i < tasks@.len() ==> (#[trigger] tasks@[i])@ == r@[i % n_workers as int]@[i
                / n_workers as int]@,
        forall|w: int|
            0 <= w < n_workers ==> (#[trigger] r@[w]@.len()) == (if w < tasks@.len() {
                (tasks@.len() - w + n_workers - 1) / (n_workers as int)
            } else {
                0int
            }),
{
    let ghost n = n_workers as int;
    let mut r: Vec<Vec<Task>> = Vec::new();
    let mut w: usize = 0;
    while w < n_workers
        invariant
            w <= n_workers,
            n == n_workers as int,
            n >= 1,
            r@.len() == w,
            forall|u: int, k: int|
                0 <= u < w && 0 <= k < r@[u]@.len() ==> (#[trigger] r@[u]@[k])@ == tasks@[k * n
                    + u]@,
            forall|u: int|
                0 <= u < w ==> (#[trigger] r@[u]@.len()) == (if u < tasks@.len() {
                    (tasks@.len() - u + n - 1) / n
                } else {
                    0int
                }),
        decreases n_workers - w,
    {
        let mut q: Vec<Task> = Vec::new();
        if w < tasks.len() {
            let mut idx: usize = w;
            proof {
                assert(0 * n + w == w) by (nonlinear_arith);
            }
            loop
                invariant_except_break
                    n == n_workers as int,
                    n >= 1,
                    w < tasks@.len(),
                    idx < tasks@.len(),
                    idx == q@.len() * n + w,
                    forall|k: int|
                        0 <= k < q@.len() ==> (#[trigger] q@[k])@ == tasks@[k * n + w]@,
                ensures
                    forall|k: int|
                        0 <= k < q@.len() ==> (#[trigger] q@[k])@ == tasks@[k * n + w]@,
                    q@.len() >= 1,
                    (q@.len() - 1) * n + w < tasks@.len() <= q@.len() * n + w,
                decreases tasks@.len() - idx,
            {
                let ghost c = q@.len() as int;
                q.push(clone_task(&tasks[idx]));
                proof {
                    assert((c + 1) * n == c * n + n) by (nonlinear_arith);
                }
                if tasks.len() - idx <= n_workers {
                    break ;
                }
                idx += n_workers;
            }
            proof {
                let c = q@.len() as int;
                let m = tasks@.len() as int;
                assert((m - w + n - 1) / n == c) by {
                    assert((c - 1) * n == c * n - n) by (nonlinear_arith);
                    let x = m - w + n - 1;
                    assert(c * n < m - w + n <= c * n + n);
                    vstd::arithmetic::div_mod::lemma_fundamental_div_mod_converse(
                        x,
                        n,
                        c,
                        x - c * n,
                    );
                }
            }
        }
        r.push(q);
        w += 1;
    }
    proof {
        assert forall|i: int|
            0 <= i < tasks@.len() implies (#[trigger] tasks@[i])@ == r@[i % n]@[i / n]@ by {
            vstd::arithmetic::div_mod::lemma_fundamental_div_mod(i, n);
            vstd::arithmetic::div_mod::lemma_mod_bound(i, n);
            vstd::arithmetic::div_mod::lemma_div_pos_is_pos(i, n);
            let k = i / n;
            let u = i % n;
            assert(i == k * n + u) by {
                assert(n * k == k * n) by (nonlinear_arith);
            }
            assert(k < r@[u]@.len()) by {
                let m = tasks@.len() as int;
                let c = r@[u]@.len() as int;
                assert(u < m);
                assert(c == (m - u + n - 1) / n);
                vstd::arithmetic::div_mod::lemma_fundamental_div_mod(m - u + n - 1, n);
                vstd::arithmetic::div_mod::lemma_mod_bound(m - u + n - 1, n);
                assert(m - u + n - 1 == n * c + (m - u + n - 1) % n);
                assert(n * c == c * n) by (nonlinear_arith);
                assert(k * n + u < m);
                assert(k * n < c * n + n);
                assert((c + 1) * n == c * n + n) by (nonlinear_arith);
                vstd::arithmetic::mul::lemma_mul_strict_inequality_converse(k, c + 1, n);
            }
        }
    }
    r
}

/// How a batch invocation runs, by its input count and pipe switch.
pub enum RunMode {
    Piped,
    Single,
    Multi,
}

impl Cli {
    /// Decides how the invocation runs: the standard streams when piping
    /// is asked for and no files matched, one direct conversion for one
    /// file, the parallel pipeline for several; no files and no pipe, or
    /// files together with the pipe switch, are configuration errors.
    pub fn run_mode(&self, n_files: usize) -> (r: Result<RunMode, BncsvError>)
        ensures
            r == (if !self.pipe && self.paths@.len() == 0 {
                Err::<RunMode, BncsvError>(BncsvError::ConfigurationError)
            } else if n_files == 0 && self.pipe {
                Ok::<RunMode, BncsvError>(RunMode::Piped)
            } else if n_files == 1 && !self.pipe {
                Ok::<RunMode, BncsvError>(RunMode::Single)
            } else if n_files > 1 && !self.pipe {
                Ok::<RunMode, BncsvError>(RunMode::Multi)
            } else {
                Err::<RunMode, BncsvError>(BncsvError::ConfigurationError)
            }),
    {
        if !self.pipe && self.paths.len() == 0 {
            Err(BncsvError::ConfigurationError)
        } else if n_files == 0 && self.pipe {
            Ok(RunMode::Piped)
        } else if n_files == 1 && !self.pipe {
            Ok(RunMode::Single)
        } else if n_files > 1 && !self.pipe {
            Ok(RunMode::Multi)
        } else {
            Err(BncsvError::ConfigurationError)
        }
    }
}

} // verus!
