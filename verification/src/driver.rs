use crate::assembly::block::views;
use crate::utils::text::{chars_of, has_prefix, starts_with, str_eq};
use vstd::prelude::*;
use vstd::string::StringExecFns;

verus! {

/// The command line of the build driver, split: the processor's flags, the compiler command,
/// the assembler command, the compiler's arguments, the object file to make and the C file.
/// The processor's flags end with the optimization flags; the resolved path of the C file
/// comes after them.
pub struct BuildConfig {
    pub asmproc_flags: Vec<String>,
    pub compiler: Vec<String>,
    pub assembler_args: Vec<String>,
    pub compile_args: Vec<String>,
    pub out_file: String,
    pub in_file: String,
    pub keep_preprocessed: bool,
}

/// Why a build command line cannot be split.
#[derive(Debug, Clone, Copy, PartialEq, Eq, Structural)]
pub enum BuildArgsError {
    NoFirstSeparator,
    NoSecondSeparator,
    NoOutputFile,
    NoOutputPath,
    NoInputFile,
}

/// A split build command line, as sequences of strings.
pub struct BuildModel {
    pub asmproc_flags: Seq<Seq<char>>,
    pub compiler: Seq<Seq<char>>,
    pub assembler_args: Seq<Seq<char>>,
    pub compile_args: Seq<Seq<char>>,
    pub out_file: Seq<char>,
    pub in_file: Seq<char>,
}

/// The first position at or after `i` of `a` holding `x`, or the length of `a`.
pub open spec fn index_from(a: Seq<Seq<char>>, x: Seq<char>, i: int) -> int
    decreases a.len() - i,
{
    if i >= a.len() {
        a.len() as int
    } else if a[i] == x {
        i
    } else {
        index_from(a, x, i + 1)
    }
}

/// The first position from `i` up to `end` of an argument that does not start with `-`, or
/// `end`.
pub open spec fn plain_from(a: Seq<Seq<char>>, i: int, end: int) -> int
    decreases end - i,
{
    if i >= end {
        end
    } else if !has_prefix(a[i], "-"@) {
        i
    } else {
        plain_from(a, i + 1, end)
    }
}

/// Whether a compiler argument sets the optimization level or code generation that the
/// processor needs to know.
pub open spec fn is_opt_flag(f: Seq<char>) -> bool {
    f == "-g3"@ || f == "-g"@ || f == "-O0"@ || f == "-O1"@ || f == "-O2"@ || f == "-framepointer"@ || f
        == "-KPIC"@
}

/// The optimization flags among the arguments, in order.
pub open spec fn opt_flags(a: Seq<Seq<char>>) -> Seq<Seq<char>>
    decreases a.len(),
{
    if a.len() == 0 {
        Seq::empty()
    } else if is_opt_flag(a.last()) {
        opt_flags(a.drop_last()).push(a.last())
    } else {
        opt_flags(a.drop_last())
    }
}

/// How the build driver splits its command line: the processor's flags up to the first
/// argument that does not start with `-`, the compiler command from there to the first
/// `--`, the assembler command up to the next `--`, then the compiler's arguments, from
/// which `-o` and the object file after it are taken out and the last, the C file. The
/// processor also gets `-mips1` unless the compiler is given `-mips2`, and the compiler's
/// optimization flags.
pub open spec fn build_outcome(a: Seq<Seq<char>>) -> Result<BuildModel, BuildArgsError> {
    let s1 = index_from(a, "--"@, 0);
    if s1 >= a.len() {
        Err(BuildArgsError::NoFirstSeparator)
    } else {
        let s0 = plain_from(a, 0, s1);
        let s2 = index_from(a, "--"@, s1 + 1);
        if s2 >= a.len() {
            Err(BuildArgsError::NoSecondSeparator)
        } else {
            let rest = a.skip(s2 + 1);
            let oi = index_from(rest, "-o"@, 0);
            if oi >= rest.len() {
                Err(BuildArgsError::NoOutputFile)
            } else if oi + 1 >= rest.len() {
                Err(BuildArgsError::NoOutputPath)
            } else {
                let rest2 = rest.remove(oi + 1).remove(oi);
                if rest2.len() == 0 {
                    Err(BuildArgsError::NoInputFile)
                } else {
                    let compile = rest2.drop_last();
                    let mips = if compile.contains("-mips2"@) {
                        Seq::empty()
                    } else {
                        seq!["-mips1"@]
                    };
                    Ok(
                        BuildModel {
                            asmproc_flags: a.take(s0) + mips + opt_flags(compile),
                            compiler: a.subrange(s0, s1),
                            assembler_args: a.subrange(s1 + 1, s2),
                            compile_args: compile,
                            out_file: rest[oi + 1],
                            in_file: rest2.last(),
                        },
                    )
                }
            }
        }
    }
}

/// The first position at or after `from` of `a` holding `x`, or the length of `a`.
fn find_arg(a: &[String], x: &str, from: usize) -> (r: usize)
    requires
        from <= a@.len(),
    ensures
        r == index_from(views(a@), x@, from as int),
        from <= r <= a@.len(),
{
    let mut i = from;
    while i < a.len()
        invariant
            from <= i <= a@.len(),
            index_from(views(a@), x@, from as int) == index_from(views(a@), x@, i as int),
        decreases a@.len() - i,
    {
        if str_eq(a[i].as_str(), x) {
            return i;
        }
        i += 1;
    }
    i
}

/// The first position before `end` of an argument that does not start with `-`, or `end`.
fn find_plain(a: &[String], end: usize) -> (r: usize)
    requires
        end <= a@.len(),
    ensures
        r == plain_from(views(a@), 0, end as int),
        r <= end,
{
    let mut i: usize = 0;
    while i < end
        invariant
            i <= end <= a@.len(),
            plain_from(views(a@), 0, end as int) == plain_from(views(a@), i as int, end as int),
        decreases end - i,
    {
        let cs = chars_of(a[i].as_str());
        if !starts_with(cs.as_slice(), "-") {
            return i;
        }
        i += 1;
    }
    i
}

/// Copies of the strings from position `a` up to `b`.
fn copy_range(v: &[String], a: usize, b: usize) -> (r: Vec<String>)
    requires
        a <= b <= v@.len(),
    ensures
        views(r@) == views(v@).subrange(a as int, b as int),
{
    let mut r: Vec<String> = Vec::new();
    let mut i = a;
    while i < b
        invariant
            a <= i <= b <= v@.len(),
            views(r@) == views(v@).subrange(a as int, i as int),
        decreases b - i,
    {
        let ghost before = views(r@);
        let s = v[i].clone();
        r.push(s);
        assert(views(r@) =~= before.push(v@[i as int]@));
        assert(views(v@).subrange(a as int, i + 1) =~= views(v@).subrange(a as int, i as int).push(v@[i as int]@));
        i += 1;
    }
    r
}

/// Whether `s` is one of the optimization flags.
fn opt_flag(s: &str) -> (r: bool)
    ensures
        r == is_opt_flag(s@),
{
    str_eq(s, "-g3") || str_eq(s, "-g") || str_eq(s, "-O0") || str_eq(s, "-O1") || str_eq(s, "-O2") || str_eq(
        s,
        "-framepointer",
    ) || str_eq(s, "-KPIC")
}

/// Splits the build driver's command line as `build_outcome` says.
pub fn split_build_args(args: &[String]) -> (r: Result<BuildConfig, BuildArgsError>)
    ensures
        match build_outcome(views(args@)) {
            Err(e) => r == Err::<BuildConfig, BuildArgsError>(e),
            Ok(m) => r matches Ok(c) && views(c.asmproc_flags@) == m.asmproc_flags && views(c.compiler@)
                == m.compiler && views(c.assembler_args@) == m.assembler_args && views(c.compile_args@)
                == m.compile_args && c.out_file@ == m.out_file && c.in_file@ == m.in_file
                && !c.keep_preprocessed,
        },
{
    let ghost a = views(args@);
    let s1 = find_arg(args, "--", 0);
    if s1 >= args.len() {
        return Err(BuildArgsError::NoFirstSeparator);
    }
    let s0 = find_plain(args, s1);
    let s2 = find_arg(args, "--", s1 + 1);
    if s2 >= args.len() {
        return Err(BuildArgsError::NoSecondSeparator);
    }
    let rest = copy_range(args, s2 + 1, args.len());
    assert(views(rest@) =~= a.skip(s2 + 1));
    let oi = find_arg(rest.as_slice(), "-o", 0);
    if oi >= rest.len() {
        return Err(BuildArgsError::NoOutputFile);
    }
    if oi + 1 >= rest.len() {
        return Err(BuildArgsError::NoOutputPath);
    }
    let out_file = rest[oi + 1].as_str().to_owned();
    let ghost rv = views(rest@);
    let mut compile = copy_range(rest.as_slice(), 0, oi);
    let mut tail = copy_range(rest.as_slice(), oi + 2, rest.len());
    let ghost c1 = views(compile@);
    let ghost t1 = views(tail@);
    compile.append(&mut tail);
    assert(views(compile@) =~= c1 + t1);
    let ghost r2 = rv.remove(oi + 1).remove(oi as int);
    assert(r2 =~= rv.subrange(0, oi as int) + rv.subrange(oi + 2, rv.len() as int));
    assert(views(compile@) =~= r2);
    if compile.len() == 0 {
        return Err(BuildArgsError::NoInputFile);
    }
    let in_file = match compile.pop() {
        Some(s) => s,
        None => {
            return Err(BuildArgsError::NoInputFile);
        },
    };
    assert(views(compile@) =~= r2.drop_last());
    let ghost cv = views(compile@);
    let mut asmproc_flags = copy_range(args, 0, s0);
    let mut mips2 = false;
    let mut j: usize = 0;
    while j < compile.len()
        invariant
            cv == views(compile@),
            j <= compile@.len(),
            mips2 == cv.take(j as int).contains("-mips2"@),
        decreases compile@.len() - j,
    {
        proof {
            assert(cv.take(j + 1) =~= cv.take(j as int).push(cv[j as int]));
        }
        if str_eq(compile[j].as_str(), "-mips2") {
            mips2 = true;
            assert(cv.take(j + 1).contains("-mips2"@)) by {
                assert(cv.take(j + 1)[j as int] == "-mips2"@);
            }
        } else {
            assert(cv.take(j + 1).contains("-mips2"@) == cv.take(j as int).contains("-mips2"@)) by {
                if cv.take(j + 1).contains("-mips2"@) {
                    let w = choose|w: int| 0 <= w < j + 1 && #[trigger] cv.take(j + 1)[w] == "-mips2"@;
                    if w < j {
                        assert(cv.take(j as int)[w] == "-mips2"@);
                    }
                }
            }
        }
        j += 1;
    }
    assert(cv.take(j as int) =~= cv);
    let ghost flags0 = views(asmproc_flags@);
    if !mips2 {
        asmproc_flags.push("-mips1".to_owned());
    }
    let ghost mips = if cv.contains("-mips2"@) {
        Seq::<Seq<char>>::empty()
    } else {
        seq!["-mips1"@]
    };
    assert(views(asmproc_flags@) =~= flags0 + mips);
    let ghost flags1 = views(asmproc_flags@);
    let mut k: usize = 0;
    while k < compile.len()
        invariant
            cv == views(compile@),
            k <= compile@.len(),
            views(asmproc_flags@) == flags1 + opt_flags(cv.take(k as int)),
        decreases compile@.len() - k,
    {
        proof {
            assert(cv.take(k + 1).drop_last() =~= cv.take(k as int));
            assert(cv.take(k + 1).last() == cv[k as int]);
            assert(compile@[k as int]@ == cv[k as int]);
        }
        let ghost before = views(asmproc_flags@);
        if opt_flag(compile[k].as_str()) {
            let s = compile[k].clone();
            asmproc_flags.push(s);
            assert(views(asmproc_flags@) =~= before.push(cv[k as int]));
            assert(views(asmproc_flags@) =~= flags1 + opt_flags(cv.take(k + 1)));
        }
        k += 1;
    }
    assert(cv.take(k as int) =~= cv);
    let compiler = copy_range(args, s0, s1);
    let assembler_args = copy_range(args, s1 + 1, s2);
    Ok(
        BuildConfig {
            asmproc_flags,
            compiler,
            assembler_args,
            compile_args: compile,
            out_file,
            in_file,
            keep_preprocessed: false,
        },
    )
}

/// Each dependency, one after the other, with `sep` between them.
pub open spec fn joined_with(ds: Seq<Seq<char>>, sep: Seq<char>) -> Seq<char>
    decreases ds.len(),
{
    if ds.len() == 0 {
        Seq::empty()
    } else if ds.len() == 1 {
        ds[0]
    } else {
        joined_with(ds.drop_last(), sep) + sep + ds.last()
    }
}

/// An empty rule for each dependency: a blank line, then the dependency and a colon.
pub open spec fn dep_rules(ds: Seq<Seq<char>>) -> Seq<char>
    decreases ds.len(),
{
    if ds.len() == 0 {
        Seq::empty()
    } else {
        dep_rules(ds.drop_last()) + "\n"@ + ds.last() + ":\n"@
    }
}

/// The dependency file of an object file: a rule making it depend on every dependency, one
/// per continued line, then an empty rule for each dependency.
pub open spec fn deps_text(out: Seq<char>, ds: Seq<Seq<char>>) -> Seq<char> {
    out + ": "@ + joined_with(ds, " \\\n    "@) + "\n"@ + dep_rules(ds)
}

/// The text of the dependency file for the object file `out_file`, as `deps_text` says.
pub fn deps_file_text(out_file: &str, deps: &[String]) -> (s: String)
    ensures
        s@ == deps_text(out_file@, views(deps@)),
{
    let ghost ds = views(deps@);
    let mut joined = String::new();
    let mut i: usize = 0;
    while i < deps.len()
        invariant
            ds == views(deps@),
            i <= deps@.len(),
            joined@ == joined_with(ds.take(i as int), " \\\n    "@),
        decreases deps@.len() - i,
    {
        proof {
            assert(ds.take(i + 1).drop_last() =~= ds.take(i as int));
        }
        if i > 0 {
            joined.append(" \\\n    ");
        }
        joined.append(deps[i].as_str());
        proof {
            if i == 0 {
                assert(ds.take(1)[0] == ds[0]);
            }
        }
        i += 1;
    }
    assert(ds.take(i as int) =~= ds);
    let mut rules = String::new();
    let mut j: usize = 0;
    while j < deps.len()
        invariant
            ds == views(deps@),
            j <= deps@.len(),
            rules@ == dep_rules(ds.take(j as int)),
        decreases deps@.len() - j,
    {
        proof {
            assert(ds.take(j + 1).drop_last() =~= ds.take(j as int));
        }
        rules.append("\n");
        rules.append(deps[j].as_str());
        rules.append(":\n");
        j += 1;
    }
    assert(ds.take(j as int) =~= ds);
    let mut s = out_file.to_owned();
    s.append(": ");
    s.append(joined.as_str());
    s.append("\n");
    s.append(rules.as_str());
    s
}

} // verus!
