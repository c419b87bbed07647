use crate::assembly::function::Function;
use crate::utils::error::Error;
use crate::utils::options::Opts;
use crate::utils::text::{chars_of, string_of, str_eq, has_suffix, ends_with};
use vstd::prelude::*;

verus! {

/// The command line of the processor.
pub struct Args {
    /// Path to the C source.
    pub filename: String,
    /// Path to the object file to post-process.
    pub post_process: Option<String>,
    /// Assembler command.
    pub assembler: Option<String>,
    /// Path to a prelude for the assembly file, or the prelude itself.
    pub asm_prelude: Option<String>,
    pub input_enc: String,
    pub output_enc: String,
    pub drop_mdebug_gptab: bool,
    pub convert_statics: String,
    pub force: bool,
    pub encode_cutscene_data_floats: bool,
    pub framepointer: bool,
    pub mips1: bool,
    pub g3: bool,
    pub kpic: bool,
    pub opt_o0: bool,
    pub opt_o1: bool,
    pub opt_o2: bool,
    pub opt_g: bool,
}

/// What pre-processing gives: the blocks found and the files read.
pub struct ProcessorOutput {
    pub functions: Vec<Function>,
    pub dependencies: Vec<String>,
}

/// The optimization level that the flags select: the first of `-O0`, `-O1`, `-O2`, `-g` that is
/// set, `-g3` turning `-O2` into `g3`.
pub open spec fn selected_opt(args: Args) -> Option<Seq<char>> {
    let base = if args.opt_o0 {
        Some("O0"@)
    } else if args.opt_o1 {
        Some("O1"@)
    } else if args.opt_o2 {
        Some("O2"@)
    } else if args.opt_g {
        Some("g"@)
    } else {
        None
    };
    match base {
        None => None,
        Some(o) => if args.g3 {
            Some("g3"@)
        } else {
            Some(o)
        },
    }
}

/// The last component of a path: what follows its last `/`.
pub open spec fn file_name_of(path: Seq<char>) -> Seq<char>
    decreases path.len(),
{
    if path.len() == 0 {
        path
    } else if path.last() == '/' {
        Seq::empty()
    } else {
        file_name_of(path.drop_last()).push(path.last())
    }
}

/// The extension of a file name: what follows its last `.`, unless it has none or its only
/// `.` begins it.
pub open spec fn extension_of(name: Seq<char>) -> Option<Seq<char>> {
    if exists|i: int| 0 < i < name.len() && name[i] == '.' {
        let i = choose|i: int|
            0 < i < name.len() && name[i] == '.' && forall|j: int| i < j < name.len() ==> name[j] != '.';
        Some(name.skip(i + 1))
    } else {
        None
    }
}

/// Whether a source path names a Pascal file: its extension is `p`, `pas` or `pp`.
pub open spec fn is_pascal_path(path: Seq<char>) -> bool {
    match extension_of(file_name_of(path)) {
        Some(e) => e == "p"@ || e == "pas"@ || e == "pp"@,
        None => false,
    }
}

/// The last component of a path.
fn file_name(path: &[char]) -> (r: Vec<char>)
    ensures
        r@ == file_name_of(path@),
{
    let mut i = path.len();
    while i > 0 && path[i - 1] != '/'
        invariant
            i <= path@.len(),
            forall|j: int| i <= j < path@.len() ==> path@[j] != '/',
        decreases i,
    {
        i -= 1;
    }
    proof {
        lemma_file_name(path@, i as int);
    }
    vstd::slice::slice_to_vec(vstd::slice::slice_subrange(path, i, path.len()))
}

proof fn lemma_file_name(path: Seq<char>, i: int)
    requires
        0 <= i <= path.len(),
        forall|j: int| i <= j < path.len() ==> path[j] != '/',
        i > 0 ==> path[i - 1] == '/',
    ensures
        file_name_of(path) == path.skip(i),
    decreases path.len(),
{
    if path.len() > 0 {
        if i == path.len() {
            assert(path.skip(i) =~= Seq::<char>::empty());
        } else {
            lemma_file_name(path.drop_last(), i);
            assert(path.drop_last().skip(i).push(path.last()) =~= path.skip(i));
        }
    } else {
        assert(path.skip(i) =~= path);
    }
}

/// The extension of a file name, as `Path::extension` documents it.
fn extension(name: &[char]) -> (r: Option<Vec<char>>)
    ensures
        match extension_of(name@) {
            Some(e) => r matches Some(v) && v@ == e,
            None => r is None,
        },
{
    let mut i = name.len();
    while i > 0 && name[i - 1] != '.'
        invariant
            i <= name@.len(),
            forall|j: int| i <= j < name@.len() ==> name@[j] != '.',
        decreases i,
    {
        i -= 1;
    }
    if i <= 1 {
        assert forall|k: int| 0 < k < name@.len() implies name@[k] != '.' by {
            if k >= i {
            } else {
                assert(k == 0 || i == 1);
            }
        }
        return None;
    }
    let d = i - 1;
    assert(0 < d < name@.len() && name@[d as int] == '.' && forall|j: int| d < j < name@.len() ==> name@[j] != '.');
    let ghost c = choose|k: int|
        0 < k < name@.len() && name@[k] == '.' && forall|j: int| k < j < name@.len() ==> name@[j] != '.';
    assert(c == d) by {
        if c < d {
            assert(name@[d as int] != '.');
        } else if c > d {
            assert(name@[c] != '.');
        }
    }
    Some(vstd::slice::slice_to_vec(vstd::slice::slice_subrange(name, i, name.len())))
}

/// Whether a source path names a Pascal file.
pub fn is_pascal(path: &str) -> (r: bool)
    ensures
        r == is_pascal_path(path@),
{
    let cs = chars_of(path);
    let name = file_name(cs.as_slice());
    match extension(name.as_slice()) {
        Some(e) => {
            let es = string_of(e.as_slice());
            str_eq(es.as_str(), "p") || str_eq(es.as_str(), "pas") || str_eq(es.as_str(), "pp")
        },
        None => false,
    }
}

/// The names of the optimization levels differ from one another.
pub proof fn lemma_opt_names()
    ensures
        "O0"@ != "O1"@,
        "O0"@ != "O2"@,
        "O0"@ != "g"@,
        "O0"@ != "g3"@,
        "O1"@ != "O2"@,
        "O1"@ != "g"@,
        "O1"@ != "g3"@,
        "O2"@ != "g"@,
        "O2"@ != "g3"@,
        "g"@ != "g3"@,
{
    reveal_strlit("O0");
    reveal_strlit("O1");
    reveal_strlit("O2");
    reveal_strlit("g");
    reveal_strlit("g3");
    assert("O0"@[1] != "O1"@[1]);
    assert("O0"@[1] != "O2"@[1]);
    assert("O1"@[1] != "O2"@[1]);
    assert("O0"@[0] != "g"@[0]);
    assert("O1"@[0] != "g"@[0]);
    assert("O2"@[0] != "g"@[0]);
    assert("O0"@[0] != "g3"@[0]);
    assert("O1"@[0] != "g3"@[0]);
    assert("O2"@[0] != "g3"@[0]);
    assert("g"@.len() != "g3"@.len());
}

/// The options that the command line asks for: the optimization level from the flags, with
/// `-g3` only beside `-O2`, `-mips1` only with `-O1` or `-O2` and no frame pointer, and a Pascal
/// source (by its extension) only with `-O1`, `-O2` or `-O2 -g3`.
pub fn resolve_opts(args: &Args) -> (r: Result<Opts, Error>)
    ensures
        selected_opt(*args) is None ==> r matches Err(Error::InvalidInput(_)),
        selected_opt(*args) matches Some(opt) ==> {
            let base_o2 = !args.opt_o0 && !args.opt_o1 && args.opt_o2;
            let pascal = is_pascal_path(args.filename@);
            &&& args.g3 && !base_o2 ==> (r matches Err(Error::InvalidInput(_)))
            &&& !(args.g3 && !base_o2) && args.mips1 && (!(opt == "O1"@ || opt == "O2"@) || args.framepointer)
                ==> (r matches Err(Error::InvalidInput(_)))
            &&& !(args.g3 && !base_o2) && !(args.mips1 && (!(opt == "O1"@ || opt == "O2"@) || args.framepointer))
                && pascal && !(opt == "O1"@ || opt == "O2"@ || opt == "g3"@) ==> (r matches Err(Error::InvalidInput(_)))
            &&& !(args.g3 && !base_o2) && !(args.mips1 && (!(opt == "O1"@ || opt == "O2"@) || args.framepointer))
                && !(pascal && !(opt == "O1"@ || opt == "O2"@ || opt == "g3"@)) ==> (r matches Ok(o) && {
                &&& o.opt@ == opt
                &&& o.framepointer == args.framepointer
                &&& o.kpic == args.kpic
                &&& o.enable_cutscene_data_float_encoding == args.encode_cutscene_data_floats
                &&& o.mips1 == args.mips1
                &&& o.pascal == pascal
                &&& o.filename@ == args.filename@
                &&& o.output_enc@ == args.output_enc@
            })
        },
{
    let base: &str = if args.opt_o0 {
        "O0"
    } else if args.opt_o1 {
        "O1"
    } else if args.opt_o2 {
        "O2"
    } else if args.opt_g {
        "g"
    } else {
        return Err(Error::InvalidInput("one of -O0, -O1, -O2, -g is required".to_owned()));
    };
    let pascal = is_pascal(args.filename.as_str());
    proof {
        lemma_opt_names();
    }
    if args.g3 && !str_eq(base, "O2") {
        return Err(Error::InvalidInput("-g3 is only supported together with -O2".to_owned()));
    }
    let opt: &str = if args.g3 {
        "g3"
    } else {
        base
    };
    let o1_or_o2 = str_eq(opt, "O1") || str_eq(opt, "O2");
    if args.mips1 && (!o1_or_o2 || args.framepointer) {
        return Err(Error::InvalidInput("-mips1 is only supported together with -O1 or -O2".to_owned()));
    }
    if pascal && !(o1_or_o2 || str_eq(opt, "g3")) {
        return Err(Error::InvalidInput("Pascal is only supported together with -O1, -O2 or -O2 -g3".to_owned()));
    }
    Ok(
        Opts::new(
            opt,
            args.framepointer,
            args.kpic,
            args.encode_cutscene_data_floats,
            args.mips1,
            pascal,
            args.filename.as_str(),
            args.output_enc.as_str(),
        ),
    )
}

/// Whether a source path ends in `.p`, `.pas` or `.pp`.
pub open spec fn has_pascal_suffix(path: Seq<char>) -> bool {
    has_suffix(path, ".p"@) || has_suffix(path, ".pas"@) || has_suffix(path, ".pp"@)
}

/// The checks of the command line, with the optimization level `opt` (`O0`, `O1`, `O2` or `g`)
/// and a Pascal source recognised by the suffix of its path: `-g3` only beside `-O2`,
/// `-mips1` only with `-O1` or `-O2` and no frame pointer, Pascal only with `-O1` or `-O2`.
pub fn check_args(opt: &str, g3: bool, mips1: bool, framepointer: bool, filename: &str) -> (r: Result<(), Error>)
    ensures
        ({
            let o12 = opt@ == "O1"@ || opt@ == "O2"@;
            let pascal = has_pascal_suffix(filename@);
            &&& g3 && opt@ != "O2"@ ==> (r matches Err(Error::InvalidInput(_)))
            &&& !(g3 && opt@ != "O2"@) && mips1 && (!o12 || framepointer) ==> (r matches Err(Error::InvalidInput(_)))
            &&& !(g3 && opt@ != "O2"@) && !(mips1 && (!o12 || framepointer)) && pascal && !o12 ==> (r matches Err(
                Error::InvalidInput(_),
            ))
            &&& !(g3 && opt@ != "O2"@) && !(mips1 && (!o12 || framepointer)) && !(pascal && !o12) ==> r is Ok
        }),
{
    let cs = chars_of(filename);
    let pascal = ends_with(cs.as_slice(), ".p") || ends_with(cs.as_slice(), ".pas") || ends_with(cs.as_slice(), ".pp");
    let o1 = str_eq(opt, "O1");
    let o2 = str_eq(opt, "O2");
    if g3 && !o2 {
        return Err(Error::InvalidInput("-g3 is only supported together with -O2".to_owned()));
    }
    if mips1 && (!(o1 || o2) || framepointer) {
        return Err(Error::InvalidInput("-mips1 is only supported together with -O1 or -O2".to_owned()));
    }
    if pascal && !(o1 || o2) {
        return Err(Error::InvalidInput("Pascal is only supported together with -O1, -O2 or -O2 -g3".to_owned()));
    }
    Ok(())
}

/// The options for a command line that passed `check_args`: a Pascal source is recognised by
/// the suffix of its path.
pub fn create_opts(
    opt: &str,
    framepointer: bool,
    kpic: bool,
    encode_cutscene_data_floats: bool,
    mips1: bool,
    filename: &str,
    output_enc: &str,
) -> (o: Opts)
    ensures
        o.opt@ == opt@,
        o.framepointer == framepointer,
        o.kpic == kpic,
        o.enable_cutscene_data_float_encoding == encode_cutscene_data_floats,
        o.mips1 == mips1,
        o.pascal == has_pascal_suffix(filename@),
        o.filename@ == filename@,
        o.output_enc@ == output_enc@,
{
    let cs = chars_of(filename);
    let pascal = ends_with(cs.as_slice(), ".p") || ends_with(cs.as_slice(), ".pas") || ends_with(cs.as_slice(), ".pp");
    Opts::new(opt, framepointer, kpic, encode_cutscene_data_floats, mips1, pascal, filename, output_enc)
}

/// What a run of the processor does: pre-process the source, or post-process an object file.
#[derive(Debug, Clone, Copy, PartialEq, Eq, Structural)]
pub enum RunMode {
    /// Print the pre-processed source.
    Preprocess,
    /// Fix up the object file with the source's blocks.
    PostProcess,
}

/// What a post-processing run does once the source's blocks are known.
#[derive(Debug, Clone, Copy, PartialEq, Eq, Structural)]
pub enum Step {
    /// No object file was given: print the pre-processed source.
    Preprocess,
    /// There are no blocks and no `--force`: leave the object file alone.
    Skip,
    /// Fix up the object file.
    Fixup,
}

/// The mode of a run: without an object file the source is pre-processed; with one, an
/// assembler command must be given.
pub fn run_mode(has_objfile: bool, has_assembler: bool) -> (r: Result<RunMode, Error>)
    ensures
        !has_objfile ==> r == Ok::<RunMode, Error>(RunMode::Preprocess),
        has_objfile && !has_assembler ==> (r matches Err(Error::InvalidInput(msg))
            && msg@ == "must pass assembler command"@),
        has_objfile && has_assembler ==> r == Ok::<RunMode, Error>(RunMode::PostProcess),
{
    if !has_objfile {
        return Ok(RunMode::Preprocess);
    }
    if !has_assembler {
        return Err(Error::InvalidInput("must pass assembler command".to_owned()));
    }
    Ok(RunMode::PostProcess)
}

/// The step of a run, given whether an object file and an assembler command were given, how
/// many blocks the source holds and whether `--force` was given: pre-process without an
/// object file; refuse a missing assembler command; skip the fix-up where there are no
/// blocks and no `--force`; fix up otherwise.
pub fn post_process_step(has_objfile: bool, has_assembler: bool, n_functions: usize, force: bool) -> (r: Result<
    Step,
    Error,
>)
    ensures
        !has_objfile ==> r == Ok::<Step, Error>(Step::Preprocess),
        has_objfile && !has_assembler ==> (r matches Err(Error::InvalidInput(msg))
            && msg@ == "must pass assembler command"@),
        has_objfile && has_assembler && n_functions == 0 && !force ==> r == Ok::<Step, Error>(Step::Skip),
        has_objfile && has_assembler && (n_functions > 0 || force) ==> r == Ok::<Step, Error>(Step::Fixup),
{
    match run_mode(has_objfile, has_assembler) {
        Err(e) => Err(e),
        Ok(RunMode::Preprocess) => Ok(Step::Preprocess),
        Ok(RunMode::PostProcess) => if n_functions == 0 && !force {
            Ok(Step::Skip)
        } else {
            Ok(Step::Fixup)
        },
    }
}

} // verus!
