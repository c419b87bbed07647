use vstd::prelude::*;

verus! {

/// Options for controlling the assembly processing.
#[derive(Debug, Clone)]
pub struct Opts {
    /// Optimization level (O0, O1, O2, g, g3)
    pub opt: String,
    /// Whether to use frame pointer
    pub framepointer: bool,
    /// Whether to use KPIC (Position Independent Code)
    pub kpic: bool,
    /// Whether to enable cutscene data float encoding
    pub enable_cutscene_data_float_encoding: bool,
    /// Whether targeting MIPS1
    pub mips1: bool,
    /// Whether using Pascal calling convention
    pub pascal: bool,
    /// Input filename
    pub filename: String,
    /// Output encoding
    pub output_enc: String,
}

impl Default for Opts {
    fn default() -> (o: Self)
        ensures
            o.opt@ == "O2"@,
            !o.framepointer,
            !o.kpic,
            !o.enable_cutscene_data_float_encoding,
            !o.mips1,
            !o.pascal,
            o.filename@ == "input.c"@,
            o.output_enc@ == "utf-8"@,
    {
        Self {
            opt: "O2".to_owned(),
            framepointer: false,
            kpic: false,
            enable_cutscene_data_float_encoding: false,
            mips1: false,
            pascal: false,
            filename: "input.c".to_owned(),
            output_enc: "utf-8".to_owned(),
        }
    }
}

impl Opts {
    /// Create new options with custom settings.
    pub fn new(
        opt: &str,
        framepointer: bool,
        kpic: bool,
        enable_cutscene_data_float_encoding: bool,
        mips1: bool,
        pascal: bool,
        filename: &str,
        output_enc: &str,
    ) -> (o: Self)
        ensures
            o.opt@ == opt@,
            o.framepointer == framepointer,
            o.kpic == kpic,
            o.enable_cutscene_data_float_encoding == enable_cutscene_data_float_encoding,
            o.mips1 == mips1,
            o.pascal == pascal,
            o.filename@ == filename@,
            o.output_enc@ == output_enc@,
    {
        Self {
            opt: opt.to_owned(),
            framepointer,
            kpic,
            enable_cutscene_data_float_encoding,
            mips1,
            pascal,
            filename: filename.to_owned(),
            output_enc: output_enc.to_owned(),
        }
    }
}

} // verus!
